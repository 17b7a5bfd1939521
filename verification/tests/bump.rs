use mini_os::allocator::bump::BumpAllocator;

#[test]
fn bump_allocates_monotonically() {
    let mut b = BumpAllocator::new();
    b.init(0x1000, 4096);
    assert_eq!(b.allocate(100, 8), Some(4096));
    assert_eq!(b.allocate(100, 8), Some(4200));
    assert_eq!(b.allocate(100, 8), Some(4304));
}

#[test]
fn bump_respects_alignment() {
    let mut b = BumpAllocator::new();
    b.init(0x1000, 4096);
    assert_eq!(b.allocate(10, 8), Some(4096));
    let p = b.allocate(10, 64).unwrap();
    assert_eq!(p % 64, 0);
    assert_eq!(p, 4160);
}

#[test]
fn bump_reports_out_of_memory_when_full() {
    let mut b = BumpAllocator::new();
    b.init(0x1000, 256);
    assert_eq!(b.allocate(200, 8), Some(4096));
    assert_eq!(b.allocate(100, 8), None);
    assert_eq!(b.allocate(56, 8), Some(4296));
    assert_eq!(b.allocate(1, 1), None);
}

#[test]
fn bump_trailing_free_rolls_back() {
    let mut b = BumpAllocator::new();
    b.init(0x1000, 4096);
    let _a = b.allocate(64, 8).unwrap();
    let c = b.allocate(64, 8).unwrap();
    b.deallocate(c, 64);
    assert_eq!(b.allocate(64, 8), Some(c));
}

#[test]
fn bump_interior_free_does_not_reclaim() {
    let mut b = BumpAllocator::new();
    b.init(0x1000, 4096);
    let a = b.allocate(64, 8).unwrap();
    let _c = b.allocate(64, 8).unwrap();
    b.deallocate(a, 64);
    // the freed hole is not reused while another allocation is outstanding
    assert_eq!(b.allocate(64, 8), Some(4224));
}

#[test]
fn bump_full_free_resets_watermark() {
    let mut b = BumpAllocator::new();
    b.init(0x1000, 4096);
    let a1 = b.allocate(100, 8).unwrap();
    let a2 = b.allocate(200, 16).unwrap();
    let a3 = b.allocate(300, 32).unwrap();
    b.deallocate(a2, 200);
    b.deallocate(a3, 300);
    b.deallocate(a1, 100);
    // everything was freed, so the whole initial capacity is available again
    assert_eq!(b.allocate(4096, 8), Some(4096));
}
