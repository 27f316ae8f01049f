use blog_os::allocator::linked_list::{LinkListAllocator, ListNode, NODE_ALIGN, NODE_SIZE};
use blog_os::allocator::{AllocError, InvariantViolation};

fn list_over(heap_start: usize, heap_size: usize) -> LinkListAllocator {
    let mut list = LinkListAllocator::new();
    list.init(heap_start, heap_size);
    list
}

fn regions(list: &LinkListAllocator) -> Vec<(usize, usize)> {
    (0..list.region_count())
        .map(|k| {
            let region = list.region_at(k);
            (region.start_addr(), region.end_addr())
        })
        .collect()
}

#[test]
fn list_node_knows_its_bounds() {
    let node = ListNode::new(0x1000, 0x40);
    assert_eq!(node.start_addr(), 0x1000);
    assert_eq!(node.end_addr(), 0x1040);
    let empty = ListNode::new(usize::MAX, 0);
    assert_eq!(empty.end_addr(), usize::MAX);
}

#[test]
fn list_record_layout() {
    assert_eq!(NODE_SIZE, 16);
    assert_eq!(NODE_ALIGN, 8);
}

#[test]
fn list_new_has_no_window() {
    let mut list = LinkListAllocator::new();
    assert!(list.is_unassigned());
    assert_eq!(list.region_count(), 0);
    assert_eq!(list.allocate(8, 8), Err(AllocError::OutOfMemory));
    assert_eq!(list.allocate(0, 1), Err(AllocError::OutOfMemory));
}

#[test]
fn list_init_makes_the_window_one_region() {
    let list = list_over(0x1000, 0x400);
    assert!(!list.is_unassigned());
    assert_eq!(list.heap_start(), 0x1000);
    assert_eq!(list.heap_end(), 0x1400);
    assert_eq!(regions(&list), vec![(0x1000, 0x1400)]);
}

#[test]
fn list_size_align_adjusts_requests() {
    assert_eq!(LinkListAllocator::size_align(1, 1), (16, 8));
    assert_eq!(LinkListAllocator::size_align(0, 1), (16, 8));
    assert_eq!(LinkListAllocator::size_align(16, 8), (16, 8));
    assert_eq!(LinkListAllocator::size_align(17, 8), (24, 8));
    assert_eq!(LinkListAllocator::size_align(17, 2), (24, 8));
    assert_eq!(LinkListAllocator::size_align(20, 16), (32, 16));
    assert_eq!(LinkListAllocator::size_align(1, 64), (64, 64));
    assert_eq!(LinkListAllocator::size_align(0, 64), (16, 64));
    assert_eq!(LinkListAllocator::size_align(100, 32), (128, 32));
}

#[test]
fn list_checked_size_align_reports_overflow() {
    assert_eq!(LinkListAllocator::checked_size_align(1, 1), Some((16, 8)));
    assert_eq!(LinkListAllocator::checked_size_align(100, 32), Some((128, 32)));
    assert_eq!(LinkListAllocator::checked_size_align(usize::MAX, 1), None);
    assert_eq!(LinkListAllocator::checked_size_align(usize::MAX - 6, 8), None);
    assert_eq!(
        LinkListAllocator::checked_size_align(usize::MAX - 7, 8),
        Some((usize::MAX - 7, 8))
    );
    assert_eq!(
        LinkListAllocator::checked_size_align(0, usize::MAX / 2 + 1),
        Some((16, usize::MAX / 2 + 1))
    );
    assert_eq!(LinkListAllocator::checked_size_align(usize::MAX / 2 + 2, usize::MAX / 2 + 1), None);
}

#[test]
fn list_alloc_from_region_accepts_exact_and_roomy_fits() {
    let region = ListNode::new(0x1000, 64);
    assert_eq!(LinkListAllocator::alloc_from_region(&region, 64, 8), Ok(0x1000));
    assert_eq!(LinkListAllocator::alloc_from_region(&region, 48, 8), Ok(0x1000));
    assert_eq!(LinkListAllocator::alloc_from_region(&region, 16, 8), Ok(0x1000));
    assert_eq!(LinkListAllocator::alloc_from_region(&region, 0, 8), Ok(0x1000));
}

#[test]
fn list_alloc_from_region_rejects_slivers() {
    let region = ListNode::new(0x1000, 64);
    assert_eq!(LinkListAllocator::alloc_from_region(&region, 56, 8), Err(()));
    assert_eq!(LinkListAllocator::alloc_from_region(&region, 49, 1), Err(()));
    assert_eq!(LinkListAllocator::alloc_from_region(&region, 63, 1), Err(()));
}

#[test]
fn list_alloc_from_region_rejects_what_does_not_fit() {
    let region = ListNode::new(0x1008, 64);
    assert_eq!(LinkListAllocator::alloc_from_region(&region, 65, 8), Err(()));
    assert_eq!(LinkListAllocator::alloc_from_region(&region, 64, 16), Err(()));
    assert_eq!(LinkListAllocator::alloc_from_region(&region, 56, 16), Ok(0x1010));
    assert_eq!(LinkListAllocator::alloc_from_region(&region, 40, 16), Ok(0x1010));
    assert_eq!(LinkListAllocator::alloc_from_region(&region, 8, 0x1000), Err(()));
}

#[test]
fn list_alloc_from_region_guards_against_overflow() {
    let region = ListNode::new(usize::MAX - 63, 63);
    assert_eq!(LinkListAllocator::alloc_from_region(&region, usize::MAX, 8), Err(()));
    assert_eq!(LinkListAllocator::alloc_from_region(&region, 64, 8), Err(()));
    assert_eq!(LinkListAllocator::alloc_from_region(&region, 8, 128), Err(()));
    assert_eq!(
        LinkListAllocator::alloc_from_region(&region, 40, 8),
        Ok(usize::MAX - 63)
    );
}

#[test]
fn list_find_region_takes_the_first_fit_out() {
    let mut list = list_over(0x1000, 0x400);
    let a = list.allocate(64, 8).unwrap();
    let b = list.allocate(128, 8).unwrap();
    let c = list.allocate(64, 8).unwrap();
    list.deallocate(b, 128, 8);
    list.deallocate(a, 64, 8);
    assert_eq!(regions(&list), vec![(a, a + 64), (b, b + 128), (c + 64, 0x1400)]);
    let (region, start) = list.find_region(128, 8).unwrap();
    assert_eq!((region.start_addr(), region.end_addr()), (b, b + 128));
    assert_eq!(start, b);
    assert_eq!(regions(&list), vec![(a, a + 64), (c + 64, 0x1400)]);
    assert!(list.find_region(0x1000, 8).is_none());
    assert_eq!(regions(&list), vec![(a, a + 64), (c + 64, 0x1400)]);
}

#[test]
fn list_allocate_splits_the_region() {
    let mut list = list_over(0x1000, 0x400);
    assert_eq!(list.allocate(64, 8), Ok(0x1000));
    assert_eq!(regions(&list), vec![(0x1040, 0x1400)]);
    assert_eq!(list.allocate(1, 1), Ok(0x1040));
    assert_eq!(regions(&list), vec![(0x1050, 0x1400)]);
    assert_eq!(list.allocate(0x3b0, 8), Ok(0x1050));
    assert_eq!(regions(&list), vec![]);
    assert_eq!(list.allocate(1, 1), Err(AllocError::OutOfMemory));
}

#[test]
fn list_free_list_reuse() {
    let mut list = list_over(0x1000, 0x400);
    let first = list.allocate(64, 8).unwrap();
    let rest = regions(&list);
    list.deallocate(first, 64, 8);
    assert_eq!(regions(&list)[0], (first, first + 64));
    let second = list.allocate(32, 8).unwrap();
    assert!(first <= second && second + 32 <= first + 64);
    assert_eq!(second, first);
    let mut expected = vec![(first + 32, first + 64)];
    expected.extend(rest);
    assert_eq!(regions(&list), expected);
}

#[test]
fn list_does_not_join_neighbours() {
    let mut list = list_over(0x1000, 128);
    let a = list.allocate(64, 8).unwrap();
    let b = list.allocate(64, 8).unwrap();
    assert_eq!((a, b), (0x1000, 0x1040));
    list.deallocate(a, 64, 8);
    list.deallocate(b, 64, 8);
    assert_eq!(regions(&list), vec![(0x1040, 0x1080), (0x1000, 0x1040)]);
    assert_eq!(list.allocate(128, 8), Err(AllocError::OutOfMemory));
    assert_eq!(list.allocate(64, 8), Ok(0x1040));
}

#[test]
fn list_skips_regions_that_would_leave_a_sliver() {
    let mut list = list_over(0x1000, 0x100);
    let a = list.allocate(32, 8).unwrap();
    let _b = list.allocate(32, 8).unwrap();
    list.deallocate(a, 32, 8);
    assert_eq!(regions(&list), vec![(0x1000, 0x1020), (0x1040, 0x1100)]);
    assert_eq!(list.allocate(24, 8), Ok(0x1040));
    assert_eq!(regions(&list), vec![(0x1058, 0x1100), (0x1000, 0x1020)]);
    assert_eq!(list.allocate(32, 8), Ok(0x1058));
    assert_eq!(list.allocate(32, 8), Ok(0x1078));
    assert_eq!(list.allocate(17, 1), Ok(0x1098));
    assert_eq!(regions(&list), vec![(0x10b0, 0x1100), (0x1000, 0x1020)]);
}

#[test]
fn list_grants_lie_in_the_window_aligned_and_apart() {
    let mut list = list_over(0x10008, 4000);
    let requests = [
        (3usize, 1usize),
        (8, 8),
        (100, 64),
        (17, 4),
        (0, 16),
        (32, 32),
        (500, 256),
        (1, 2),
        (64, 8),
    ];
    let mut live: Vec<(usize, usize, usize)> = Vec::new();
    for (round, (size, align)) in requests.iter().cycle().take(40).enumerate() {
        if round % 3 == 2 {
            let (addr, size, align) = live.remove(round % live.len());
            assert!(list.can_deallocate(addr, size, align));
            list.deallocate(addr, size, align);
        }
        if let Ok(addr) = list.allocate(*size, *align) {
            assert_eq!(addr % align, 0);
            assert!(list.heap_start() <= addr);
            assert!(addr + size <= list.heap_end());
            for (other, other_size, _) in &live {
                assert!(other + other_size <= addr || addr + size <= *other);
            }
            live.push((addr, *size, *align));
        }
    }
    assert!(live.len() > 5);
}

#[test]
fn list_can_deallocate_checks_the_block() {
    let list = list_over(0x1000, 0x400);
    assert!(list.can_deallocate(0x1000, 64, 8));
    assert!(list.can_deallocate(0x13f0, 1, 1));
    assert!(!list.can_deallocate(0x13f8, 1, 1));
    assert!(!list.can_deallocate(0x1004, 64, 8));
    assert!(!list.can_deallocate(0xff8, 64, 8));
    assert!(!list.can_deallocate(0x1400, 64, 8));
    assert!(!list.can_deallocate(0x1000, 0x401, 8));
    assert!(!list.can_deallocate(0x1000, usize::MAX, 8));
    assert!(list.can_deallocate(0x1000, 0x400, 8));
}

#[test]
fn list_request_beyond_the_address_space_fails() {
    let mut list = list_over(0x1000, 0x400);
    assert_eq!(list.allocate(usize::MAX, 8), Err(AllocError::OutOfMemory));
    assert_eq!(list.allocate(usize::MAX - 0x1000, 1), Err(AllocError::OutOfMemory));
    assert_eq!(
        list.allocate(16, usize::MAX / 2 + 1),
        Err(AllocError::OutOfMemory)
    );
    assert_eq!(regions(&list), vec![(0x1000, 0x1400)]);
    let start = usize::MAX - 0x407;
    let mut high = list_over(start, 0x400);
    assert_eq!(high.allocate(0x3f0, 16), Err(AllocError::OutOfMemory));
    assert_eq!(high.allocate(8, 0x800), Err(AllocError::OutOfMemory));
    assert_eq!(high.allocate(0x401, 8), Err(AllocError::OutOfMemory));
    assert_eq!(high.allocate(0x3e8, 8), Ok(start));
    assert_eq!(regions(&high), vec![(start + 0x3e8, usize::MAX - 7)]);
}

#[test]
fn list_try_init_assigns_the_window_once() {
    let mut list = LinkListAllocator::new();
    assert_eq!(list.try_init(0x1001, 64), Err(InvariantViolation));
    assert_eq!(list.try_init(0x1000, 8), Err(InvariantViolation));
    assert_eq!(list.try_init(usize::MAX - 15, 17), Err(InvariantViolation));
    assert!(list.is_unassigned());
    assert_eq!(list.try_init(0x1000, 64), Ok(()));
    assert_eq!(regions(&list), vec![(0x1000, 0x1040)]);
    assert_eq!(list.try_init(0x1000, 64), Err(InvariantViolation));
    assert_eq!(list.allocate(64, 8), Ok(0x1000));
    assert_eq!(list.try_init(0x1000, 64), Err(InvariantViolation));
    assert_eq!(list.region_count(), 0);
    assert_eq!(list.heap_end(), 0x1040);
}

#[test]
fn list_try_deallocate_refuses_what_it_cannot_take() {
    let mut list = list_over(0x1000, 0x100);
    let addr = list.allocate(64, 8).unwrap();
    assert_eq!(list.try_deallocate(addr + 4, 64, 8), Err(InvariantViolation));
    assert_eq!(list.try_deallocate(0x10c0, 65, 8), Err(InvariantViolation));
    assert_eq!(list.try_deallocate(0x800, 64, 8), Err(InvariantViolation));
    assert_eq!(regions(&list), vec![(0x1040, 0x1100)]);
    assert_eq!(list.try_deallocate(addr, 64, 8), Ok(()));
    assert_eq!(regions(&list), vec![(0x1000, 0x1040), (0x1040, 0x1100)]);
}
