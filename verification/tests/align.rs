use mini_os::allocator::align_up;
use mini_os::allocator::Dummy;

#[test]
fn align_up_already_aligned() {
    assert_eq!(align_up(0x1000, 8), 0x1000);
    assert_eq!(align_up(0, 4096), 0);
}

#[test]
fn align_up_rounds_to_next_multiple() {
    assert_eq!(align_up(0x1001, 8), 0x1008);
    assert_eq!(align_up(97, 16), 112);
    assert_eq!(align_up(1, 4096), 4096);
}

#[test]
fn align_up_alignment_one_is_identity() {
    assert_eq!(align_up(12345, 1), 12345);
    assert_eq!(align_up(0, 1), 0);
}

#[test]
fn align_up_result_is_aligned_and_close() {
    for addr in [0usize, 1, 7, 8, 9, 4095, 4096, 123456] {
        for align in [1usize, 2, 4, 8, 16, 64, 4096] {
            let r = align_up(addr, align);
            assert_eq!(r % align, 0);
            assert!(r >= addr);
            assert!(r < addr + align);
        }
    }
}

#[test]
fn dummy_always_out_of_memory() {
    let d = Dummy;
    assert_eq!(d.allocate(16, 8), None);
    assert_eq!(d.allocate(0, 1), None);
}
