use mini_os::allocator::linked_list::{LinkedListAllocator, ListNode};

#[test]
fn free_list_scenario() {
    // a 4096-byte heap: two allocations sit back to back, a freed region is
    // reused, and a request beyond the remaining space fails
    let mut a = LinkedListAllocator::new();
    a.init(4096, 4096);
    assert_eq!(a.allocate(100, 8), Some(4096));
    assert_eq!(a.allocate(100, 8), Some(4200));
    a.deallocate(4096, 100, 8);
    assert_eq!(a.allocate(50, 8), Some(4096));
    assert_eq!(a.allocate(4000, 8), None);
}

#[test]
fn free_list_round_trip_whole_heap() {
    let mut a = LinkedListAllocator::new();
    a.init(4096, 4096);
    assert_eq!(a.allocate(4096, 8), Some(4096));
    assert_eq!(a.allocate(16, 8), None);
    a.deallocate(4096, 4096, 8);
    assert_eq!(a.allocate(4096, 8), Some(4096));
}

#[test]
fn free_list_rejects_unusable_sliver() {
    let mut a = LinkedListAllocator::new();
    a.init(4096, 64);
    assert_eq!(a.allocate(40, 8), Some(4096));
    // 24 free bytes remain; a 16-byte block would leave an 8-byte sliver,
    // too small to ever rejoin the list, so the region is passed over whole
    assert_eq!(a.allocate(16, 8), None);
    assert_eq!(a.allocate(24, 8), Some(4136));
}

#[test]
fn free_list_alignment_is_respected() {
    let mut a = LinkedListAllocator::new();
    a.init(4096, 4096);
    let p = a.allocate(10, 64).unwrap();
    assert_eq!(p, 4096);
    let q = a.allocate(10, 64).unwrap();
    assert_eq!(q, 4160);
    assert_eq!(q % 64, 0);
}

#[test]
fn size_align_pads_for_the_node_record() {
    assert_eq!(LinkedListAllocator::size_align(1, 1), (16, 8));
    assert_eq!(LinkedListAllocator::size_align(100, 8), (104, 8));
    assert_eq!(LinkedListAllocator::size_align(5, 32), (32, 32));
    assert_eq!(LinkedListAllocator::size_align(17, 8), (24, 8));
}

#[test]
fn list_node_addresses() {
    let n = ListNode::new(4096, 128);
    assert_eq!(n.start_addr(), 4096);
    assert_eq!(n.end_addr(), 4224);
}

#[test]
fn alloc_from_region_first_fit_check() {
    let n = ListNode::new(4096, 64);
    assert_eq!(LinkedListAllocator::alloc_from_region(&n, 64, 8), Ok(4096));
    assert_eq!(LinkedListAllocator::alloc_from_region(&n, 80, 8), Err(()));
    // leaving an 8-byte sliver is rejected, leaving a node-sized tail is fine
    assert_eq!(LinkedListAllocator::alloc_from_region(&n, 56, 8), Err(()));
    assert_eq!(LinkedListAllocator::alloc_from_region(&n, 48, 8), Ok(4096));
}

#[test]
fn find_region_removes_first_fit() {
    let mut a = LinkedListAllocator::new();
    a.init(4096, 4096);
    let r = a.find_region(32, 8);
    assert!(r.is_some());
    let (node, start, _) = r.unwrap();
    assert_eq!(node.start_addr(), 4096);
    assert_eq!(start, 4096);
    // the region came off the list, so nothing is left to serve from
    assert_eq!(a.allocate(16, 8), None);
}

#[test]
fn free_list_exhaustion() {
    // asking for more bytes than the heap holds must end in out-of-memory
    let mut a = LinkedListAllocator::new();
    a.init(4096, 1024);
    let mut served = 0usize;
    let mut count = 0usize;
    loop {
        match a.allocate(64, 8) {
            Some(p) => {
                assert!(p >= 4096 && p + 64 <= 4096 + 1024);
                served += 64;
                count += 1;
            }
            None => break,
        }
    }
    assert_eq!(count, 16);
    assert!(served <= 1024);
}

#[test]
fn live_allocations_never_overlap() {
    let mut a = LinkedListAllocator::new();
    a.init(4096, 4096);
    let sizes = [100usize, 24, 56, 200, 8, 512];
    let mut live: Vec<(usize, usize)> = Vec::new();
    for (n, &s) in sizes.iter().enumerate() {
        let padded = (s + 7) / 8 * 8;
        let adjusted = if padded < 16 { 16 } else { padded };
        let p = a.allocate(s, 8).unwrap();
        assert!(p >= 4096 && p + adjusted <= 8192);
        for &(q, qs) in live.iter() {
            assert!(p + adjusted <= q || q + qs <= p);
        }
        live.push((p, adjusted));
        if n == 2 {
            let (q, _) = live.remove(0);
            a.deallocate(q, 100, 8);
        }
    }
}
