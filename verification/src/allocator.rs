//! Shared pieces of the allocator subsystem: the alignment arithmetic that
//! every strategy leans on, the region bookkeeping predicates, and the
//! placeholder allocator that serves nothing.

use vstd::prelude::*;
use vstd::arithmetic::div_mod::{
    lemma_add_mod_noop, lemma_fundamental_div_mod, lemma_mod_division_less_than_divisor,
    lemma_mod_multiples_basic,
};
use vstd::arithmetic::power2::{
    lemma2_to64, lemma_pow2_adds, lemma_pow2_strictly_increases, lemma_pow2_unfold, pow2,
};
use vstd::bits::{lemma_usize_low_bits_mask_is_mod, low_bits_mask};
use vstd::layout::unsigned_int_max_values;

pub mod bump;
pub mod fixed_size_block;
pub mod linked_list;

verus! {

/// The power-of-two test the allocators rely on, written as the usual bit
/// trick: a power of two has exactly one bit set, so clearing the lowest set
/// bit leaves zero.
pub open spec fn is_power_of_two(align: usize) -> bool {
    align >= 1 && align & ((align - 1) as usize) == 0
}

/// Smallest multiple of `align` that is at least `addr`.
pub open spec fn spec_align_up(addr: int, align: int) -> int
    recommends
        align >= 1,
{
    ((addr + align - 1) / align) * align
}

/// `spec_align_up` really is a multiple of `align` in `[addr, addr + align)`.
pub proof fn lemma_align_up_bounds(addr: int, align: int)
    requires
        addr >= 0,
        align >= 1,
    ensures
        spec_align_up(addr, align) % align == 0,
        addr <= spec_align_up(addr, align) < addr + align,
{
    let s: int = addr + align - 1;
    let q: int = s / align;
    lemma_fundamental_div_mod(s, align);
    lemma_mod_division_less_than_divisor(s, align);
    lemma_mod_multiples_basic(q, align);
    assert(q * align == align * q) by (nonlinear_arith);
}

/// There is only one multiple of `align` in `[addr, addr + align)`.
pub proof fn lemma_align_up_unique(addr: int, align: int, m: int)
    requires
        addr >= 0,
        align >= 1,
        m % align == 0,
        addr <= m < addr + align,
    ensures
        m == spec_align_up(addr, align),
{
    lemma_align_up_bounds(addr, align);
    let u: int = spec_align_up(addr, align);
    lemma_fundamental_div_mod(m, align);
    lemma_fundamental_div_mod(u, align);
    let a: int = m / align;
    let b: int = u / align;
    assert(m == align * a && u == align * b && addr <= m < addr + align && addr <= u < addr
        + align && align >= 1 ==> align * a == align * b) by (nonlinear_arith);
}

/// Two distinct multiples of `align` are at least `align` apart.
pub proof fn lemma_multiple_gap(x: int, y: int, align: int)
    requires
        align >= 1,
        x % align == 0,
        y % align == 0,
        x < y,
    ensures
        x + align <= y,
{
    lemma_fundamental_div_mod(x, align);
    lemma_fundamental_div_mod(y, align);
    let a: int = x / align;
    let b: int = y / align;
    assert(x == align * a && y == align * b && x < y && align >= 1 ==> x + align <= y)
        by (nonlinear_arith);
}

/// Every power of two is an exact binary exponent below the word width.
proof fn lemma_pow2_exponent(align: usize) -> (k: nat)
    requires
        is_power_of_two(align),
    ensures
        pow2(k) == align,
        k < usize::BITS,
    decreases align,
{
    let k: nat = if align == 1 {
        lemma2_to64();
        0nat
    } else {
        assert(align % 2 == 0 && align / 2 >= 1 && ((align / 2) & (((align / 2) - 1) as usize))
            == 0) by (bit_vector)
            requires
                align >= 2,
                (align & ((align - 1) as usize)) == 0,
        ;
        let k1: nat = lemma_pow2_exponent(align / 2);
        lemma_pow2_unfold(k1 + 1);
        k1 + 1
    };
    unsigned_int_max_values();
    if k > usize::BITS {
        lemma_pow2_strictly_increases(usize::BITS as nat, k);
    }
    k
}

/// A smaller power of two divides a larger one.
pub proof fn lemma_pow2_divides(small: usize, big: usize)
    requires
        is_power_of_two(small),
        is_power_of_two(big),
        small <= big,
    ensures
        (big as int) % (small as int) == 0,
{
    let j: nat = lemma_pow2_exponent(small);
    let k: nat = lemma_pow2_exponent(big);
    if j > k {
        lemma_pow2_strictly_increases(k, j);
    }
    lemma_pow2_adds(j, (k - j) as nat);
    let rest: int = pow2((k - j) as nat) as int;
    lemma_mod_multiples_basic(rest, small as int);
    assert(small * rest == rest * small) by (nonlinear_arith);
}

/// Divisibility is transitive: a multiple of `a` is a multiple of every
/// divisor of `a`.
pub proof fn lemma_mod_divides_chain(x: int, a: int, b: int)
    requires
        a >= 1,
        b >= 1,
        x % a == 0,
        a % b == 0,
    ensures
        x % b == 0,
{
    lemma_fundamental_div_mod(x, a);
    lemma_fundamental_div_mod(a, b);
    let q: int = x / a;
    let p: int = a / b;
    assert(x == a * q && a == b * p ==> x == b * (p * q)) by (nonlinear_arith);
    lemma_mod_multiples_basic(p * q, b);
    assert((p * q) * b == b * (p * q)) by (nonlinear_arith);
}

/// The sum of two multiples of `m` is a multiple of `m`.
pub proof fn lemma_mod_add_zero(x: int, y: int, m: int)
    requires
        m >= 1,
        x % m == 0,
        y % m == 0,
    ensures
        (x + y) % m == 0,
{
    lemma_add_mod_noop(x, y, m);
    lemma_mod_multiples_basic(0, m);
}

/// Clearing the low bits with a power of two's mask rounds down to a
/// multiple of `align`, and moves the value by less than `align`.
proof fn lemma_mask_rounds_down(s: usize, align: usize)
    requires
        is_power_of_two(align),
    ensures
        (s & (!((align - 1) as usize))) % align == 0,
        s & (!((align - 1) as usize)) <= s <= (s & (!((align - 1) as usize))) + align - 1,
{
    let k: nat = lemma_pow2_exponent(align);
    lemma_usize_low_bits_mask_is_mod(s, k);
    assert(low_bits_mask(k) == align - 1);
    assert((s & ((align - 1) as usize)) + (s & (!((align - 1) as usize))) == s) by (bit_vector);
    lemma_fundamental_div_mod(s as int, align as int);
    lemma_mod_division_less_than_divisor(s as int, align as int);
    lemma_mod_multiples_basic(s as int / align as int, align as int);
    assert((s as int / align as int) * align == align * (s as int / align as int))
        by (nonlinear_arith);
}

/// When the bitmask sum would overflow, no multiple of `align` fits in the
/// address space at all: rounding up lands past `usize::MAX`.
pub proof fn lemma_align_up_overflow(addr: usize, align: usize)
    requires
        is_power_of_two(align),
        addr + align - 1 > usize::MAX,
    ensures
        spec_align_up(addr as int, align as int) > usize::MAX,
{
    let k: nat = lemma_pow2_exponent(align);
    unsigned_int_max_values();
    lemma_pow2_adds(k, (usize::BITS - k) as nat);
    let rest: int = pow2((usize::BITS - k) as nat) as int;
    lemma_mod_multiples_basic(rest, align as int);
    assert(align * rest == rest * align) by (nonlinear_arith);
    assert((usize::MAX + 1) % (align as int) == 0);
    lemma_align_up_bounds(addr as int, align as int);
    let u: int = spec_align_up(addr as int, align as int);
    if u <= usize::MAX {
        lemma_multiple_gap(u, usize::MAX + 1, align as int);
    }
}

/// Rounds `addr` up to the next multiple of `align`, which must be a power of
/// two. Uses the bitmask form rather than a division.
pub fn align_up(addr: usize, align: usize) -> (r: usize)
    requires
        is_power_of_two(align),
        addr + align - 1 <= usize::MAX,
    ensures
        r == spec_align_up(addr as int, align as int),
        r % align == 0,
        addr <= r < addr + align,
{
    let sum: usize = addr + (align - 1);
    proof {
        lemma_mask_rounds_down(sum, align);
        lemma_align_up_bounds(addr as int, align as int);
        lemma_align_up_unique(addr as int, align as int, (sum & (!((align - 1) as usize))) as int);
    }
    sum & !(align - 1)
}

/// A placeholder allocator: it owns no memory, refuses every request, and
/// must never see a deallocation.
pub struct Dummy;

impl Dummy {
    /// Always reports out-of-memory.
    pub fn allocate(&self, _size: usize, _align: usize) -> (r: Option<usize>)
        ensures
            r.is_none(),
    {
        None
    }
}

} // verus!
