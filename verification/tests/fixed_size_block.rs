use mini_os::allocator::fixed_size_block::{block_size, list_index, FixedSizeBlockAllocator};

#[test]
fn classes_are_powers_of_two() {
    let expected = [8usize, 16, 32, 64, 128, 256, 512, 1024, 2048];
    for (i, e) in expected.iter().enumerate() {
        assert_eq!(block_size(i), *e);
    }
}

#[test]
fn list_index_picks_smallest_class() {
    assert_eq!(list_index(1, 1), Some(0));
    assert_eq!(list_index(8, 8), Some(0));
    assert_eq!(list_index(9, 1), Some(1));
    assert_eq!(list_index(5, 32), Some(2));
    assert_eq!(list_index(2048, 1), Some(8));
    assert_eq!(list_index(2049, 1), None);
    assert_eq!(list_index(1, 4096), None);
}

#[test]
fn class_allocation_is_class_aligned() {
    let mut a = FixedSizeBlockAllocator::new();
    a.init(4096, 4096);
    let p = a.allocate(5, 8).unwrap();
    assert_eq!(p, 4096);
    assert_eq!(p % 8, 0);
    let q = a.allocate(100, 1).unwrap();
    assert_eq!(q % 128, 0);
    let r = a.allocate(1000, 16).unwrap();
    assert_eq!(r % 1024, 0);
}

#[test]
fn freed_class_block_is_reused() {
    let mut a = FixedSizeBlockAllocator::new();
    a.init(4096, 4096);
    let p = a.allocate(5, 8).unwrap();
    a.deallocate(p, 5, 8);
    // a request of the same class pops the block just freed
    let q = a.allocate(3, 4).unwrap();
    assert_eq!(q, p);
}

#[test]
fn oversized_requests_use_the_fallback_heap() {
    let mut a = FixedSizeBlockAllocator::new();
    a.init(4096, 8192);
    let p = a.allocate(3000, 8).unwrap();
    assert_eq!(p, 4096);
    a.deallocate(p, 3000, 8);
    let q = a.allocate(3000, 8).unwrap();
    assert_eq!(q, 4096);
}

#[test]
fn fixed_size_block_exhaustion() {
    let mut a = FixedSizeBlockAllocator::new();
    a.init(4096, 4096);
    let mut count = 0usize;
    while let Some(p) = a.allocate(2048, 2048) {
        assert_eq!(p % 2048, 0);
        count += 1;
        assert!(count <= 2);
    }
    // two class blocks fill the heap exactly; the third request fails
    assert_eq!(count, 2);
}
