use blog_os::allocator::bump::BumpAllocator;
use blog_os::allocator::fixed_size_block::FixedSizeBlockAllocator;
use blog_os::allocator::linked_list::LinkListAllocator;
use blog_os::allocator::{AllocError, InvariantViolation, Locked};

#[test]
fn locked_guard_gives_access_to_the_allocator() {
    let locked = Locked::new(BumpAllocator::new());
    {
        let mut guard = locked.lock();
        assert!(guard.is_unassigned());
        guard.init(0x1000, 0x100);
    }
    let guard = locked.lock();
    assert_eq!(guard.heap_start(), 0x1000);
    assert_eq!(guard.heap_end(), 0x1100);
}

#[test]
fn locked_bump_serves_requests() {
    let locked = Locked::new(BumpAllocator::new());
    assert_eq!(locked.allocate(8, 8), Err(AllocError::OutOfMemory));
    assert_eq!(locked.deallocate(0x1000, 8, 8), Err(InvariantViolation));
    locked.lock().init(0x1000, 0x100);
    assert_eq!(locked.allocate(8, 8), Ok(0x1000));
    assert_eq!(locked.allocate(1, 16), Ok(0x1010));
    assert_eq!(locked.lock().live_count(), 2);
    assert_eq!(locked.deallocate(0x1000, 8, 8), Ok(()));
    assert_eq!(locked.lock().cursor(), 0x1011);
    assert_eq!(locked.deallocate(0x1010, 1, 16), Ok(()));
    assert_eq!(locked.lock().cursor(), 0x1000);
    assert_eq!(locked.deallocate(0x1010, 1, 16), Err(InvariantViolation));
    assert_eq!(locked.lock().live_count(), 0);
}

#[test]
fn locked_list_serves_requests() {
    let locked = Locked::new(LinkListAllocator::new());
    assert_eq!(locked.allocate(8, 8), Err(AllocError::OutOfMemory));
    locked.lock().init(0x1000, 0x100);
    assert_eq!(locked.allocate(64, 8), Ok(0x1000));
    assert_eq!(locked.deallocate(0x1004, 64, 8), Err(InvariantViolation));
    assert_eq!(locked.deallocate(0x2000, 64, 8), Err(InvariantViolation));
    assert_eq!(locked.lock().region_count(), 1);
    assert_eq!(locked.deallocate(0x1000, 64, 8), Ok(()));
    assert_eq!(locked.lock().region_count(), 2);
    assert_eq!(locked.allocate(32, 8), Ok(0x1000));
}

#[test]
fn locked_blocks_serve_requests() {
    let locked = Locked::new(FixedSizeBlockAllocator::new());
    assert_eq!(locked.allocate(8, 8), Err(AllocError::OutOfMemory));
    locked.lock().init(0x1000, 0x1000);
    assert_eq!(locked.allocate(5, 1), Ok(0x1000));
    assert_eq!(locked.allocate(3000, 1), Ok(0x1010));
    assert_eq!(locked.deallocate(0x1004, 5, 1), Err(InvariantViolation));
    assert_eq!(locked.deallocate(0x1000, 5, 1), Ok(()));
    assert_eq!(locked.lock().block_count(0), 1);
    assert_eq!(locked.deallocate(0x1010, 3000, 1), Ok(()));
    assert_eq!(locked.deallocate(0x1010, 5000, 1), Err(InvariantViolation));
    assert_eq!(locked.allocate(8, 8), Ok(0x1000));
}

#[test]
fn locked_grants_from_several_callers_do_not_overlap() {
    let locked = Locked::new(FixedSizeBlockAllocator::new());
    locked.lock().init(0x10_0000, 0x10_0000);
    let callers: Vec<&Locked<FixedSizeBlockAllocator>> = vec![&locked, &locked, &locked, &locked];
    let mut granted: Vec<Vec<(usize, usize)>> = vec![Vec::new(); callers.len()];
    for round in 0..200usize {
        for (caller, locked) in callers.iter().enumerate() {
            let size = 1 + (round * 37 + caller * 11) % 300;
            let addr = locked.allocate(size, 8).unwrap();
            assert_eq!(addr % 8, 0);
            granted[caller].push((addr, size));
            if round % 3 == 0 {
                let at = round % granted[caller].len();
                let (addr, size) = granted[caller].swap_remove(at);
                assert_eq!(locked.deallocate(addr, size, 8), Ok(()));
                granted[caller].push((locked.allocate(size, 8).unwrap(), size));
            }
        }
    }
    let mut all: Vec<(usize, usize)> = granted.into_iter().flatten().collect();
    all.sort();
    for pair in all.windows(2) {
        assert!(pair[0].0 + pair[0].1 <= pair[1].0);
    }
    assert!(0x10_0000 <= all[0].0);
    let last = all[all.len() - 1];
    assert!(last.0 + last.1 <= 0x20_0000);
}

#[test]
fn locked_init_is_guarded() {
    let bump = Locked::new(BumpAllocator::new());
    assert_eq!(bump.init(usize::MAX, 2), Err(InvariantViolation));
    assert!(bump.lock().is_unassigned());
    assert_eq!(bump.init(0x1000, 0x100), Ok(()));
    assert_eq!(bump.init(0x1000, 0x100), Err(InvariantViolation));
    assert_eq!(bump.init(0x4000, 0x100), Err(InvariantViolation));
    assert_eq!(bump.lock().heap_start(), 0x1000);

    let list = Locked::new(LinkListAllocator::new());
    assert_eq!(list.init(0x1004, 0x100), Err(InvariantViolation));
    assert_eq!(list.init(0x1000, 15), Err(InvariantViolation));
    assert_eq!(list.init(usize::MAX - 7, 16), Err(InvariantViolation));
    assert!(list.lock().is_unassigned());
    assert_eq!(list.init(0x1000, 16), Ok(()));
    assert_eq!(list.init(0x2000, 16), Err(InvariantViolation));
    assert_eq!(list.lock().heap_start(), 0x1000);
    assert_eq!(list.lock().region_count(), 1);

    let blocks = Locked::new(FixedSizeBlockAllocator::new());
    assert_eq!(blocks.init(0x1001, 0x100), Err(InvariantViolation));
    assert!(blocks.lock().is_unassigned());
    assert_eq!(blocks.init(0x1000, 0x100), Ok(()));
    assert_eq!(blocks.allocate(8, 8), Ok(0x1000));
    assert_eq!(blocks.init(0x1000, 0x100), Err(InvariantViolation));
    assert_eq!(blocks.deallocate(0x1000, 8, 8), Ok(()));
    assert_eq!(blocks.init(0x1000, 0x100), Err(InvariantViolation));
    assert_eq!(blocks.lock().block_count(0), 1);
}
