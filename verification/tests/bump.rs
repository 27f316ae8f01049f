use blog_os::allocator::bump::BumpAllocator;
use blog_os::allocator::{AllocError, InvariantViolation};

fn bump_over(heap_start: usize, heap_size: usize) -> BumpAllocator {
    let mut bump = BumpAllocator::new();
    bump.init(heap_start, heap_size);
    bump
}

#[test]
fn bump_new_has_no_window() {
    let mut bump = BumpAllocator::new();
    assert!(bump.is_unassigned());
    assert_eq!(bump.heap_start(), 0);
    assert_eq!(bump.heap_end(), 0);
    assert_eq!(bump.cursor(), 0);
    assert_eq!(bump.live_count(), 0);
    assert_eq!(bump.allocate(1, 1), Err(AllocError::OutOfMemory));
    assert_eq!(bump.allocate(0, 1), Ok(0));
}

#[test]
fn bump_init_sets_the_window() {
    let bump = bump_over(0x1000, 0x400);
    assert!(!bump.is_unassigned());
    assert_eq!(bump.heap_start(), 0x1000);
    assert_eq!(bump.heap_end(), 0x1400);
    assert_eq!(bump.cursor(), 0x1000);
    assert_eq!(bump.live_count(), 0);
}

#[test]
fn bump_places_grants_one_behind_the_other() {
    let mut bump = bump_over(0x1000, 0x400);
    assert_eq!(bump.allocate(10, 1), Ok(0x1000));
    assert_eq!(bump.cursor(), 0x100a);
    assert_eq!(bump.allocate(4, 8), Ok(0x1010));
    assert_eq!(bump.cursor(), 0x1014);
    assert_eq!(bump.allocate(1, 64), Ok(0x1040));
    assert_eq!(bump.cursor(), 0x1041);
    assert_eq!(bump.live_count(), 3);
}

#[test]
fn bump_grants_lie_in_the_window_aligned_and_apart() {
    let mut bump = bump_over(0x2003, 1000);
    let requests = [(3usize, 1usize), (8, 8), (1, 2), (100, 64), (17, 4), (0, 16), (32, 32)];
    let mut live: Vec<(usize, usize)> = Vec::new();
    for (size, align) in requests {
        let addr = bump.allocate(size, align).unwrap();
        assert_eq!(addr % align, 0);
        assert!(bump.heap_start() <= addr);
        assert!(addr + size <= bump.heap_end());
        for (other, other_size) in &live {
            assert!(other + other_size <= addr || addr + size <= *other);
        }
        live.push((addr, size));
    }
}

#[test]
fn bump_failure_changes_nothing() {
    let mut bump = bump_over(0x1000, 64);
    assert_eq!(bump.allocate(60, 1), Ok(0x1000));
    assert_eq!(bump.allocate(5, 1), Err(AllocError::OutOfMemory));
    assert_eq!(bump.allocate(1, 8), Err(AllocError::OutOfMemory));
    assert_eq!(bump.cursor(), 0x103c);
    assert_eq!(bump.live_count(), 1);
    assert_eq!(bump.allocate(4, 1), Ok(0x103c));
    assert_eq!(bump.cursor(), 0x1040);
}

#[test]
fn bump_exhaustion_and_reset() {
    let heap_size = 4096;
    let mut bump = bump_over(0x8000, heap_size);
    let sizes = [1024usize, 512, 512, 2040, 8];
    assert_eq!(sizes.iter().sum::<usize>(), heap_size);
    let mut granted = Vec::new();
    for size in sizes {
        granted.push((bump.allocate(size, 8).unwrap(), size));
    }
    assert_eq!(bump.cursor(), bump.heap_end());
    assert_eq!(bump.allocate(1, 1), Err(AllocError::OutOfMemory));
    assert_eq!(bump.allocate(4096, 8), Err(AllocError::OutOfMemory));
    for (count, (addr, size)) in granted.iter().enumerate() {
        assert_eq!(bump.live_count(), sizes.len() - count);
        assert!(bump.can_deallocate(*addr, *size, 8));
        bump.deallocate(*addr, *size, 8);
        if count + 1 < granted.len() {
            assert_eq!(bump.cursor(), bump.heap_end());
        }
    }
    assert_eq!(bump.cursor(), bump.heap_start());
    assert_eq!(bump.live_count(), 0);
    assert_eq!(bump.allocate(heap_size, 8), Ok(0x8000));
}

#[test]
fn bump_padding_can_exhaust_the_window_early() {
    let mut bump = bump_over(0, 16);
    assert_eq!(bump.allocate(1, 8), Ok(0));
    assert_eq!(bump.allocate(15, 8), Err(AllocError::OutOfMemory));
    assert_eq!(bump.allocate(8, 8), Ok(8));
}

#[test]
fn bump_keeps_memory_while_a_grant_is_live() {
    let mut bump = bump_over(0x1000, 64);
    let first = bump.allocate(16, 8).unwrap();
    let second = bump.allocate(16, 8).unwrap();
    bump.deallocate(first, 16, 8);
    assert_eq!(bump.cursor(), 0x1020);
    assert_eq!(bump.allocate(16, 8), Ok(0x1020));
    bump.deallocate(second, 16, 8);
    bump.deallocate(0x1020, 16, 8);
    assert_eq!(bump.cursor(), 0x1000);
}

#[test]
fn bump_cannot_release_without_a_live_grant() {
    let mut bump = bump_over(0x1000, 64);
    assert!(!bump.can_deallocate(0x1000, 8, 8));
    let addr = bump.allocate(8, 8).unwrap();
    assert!(bump.can_deallocate(addr, 8, 8));
    bump.deallocate(addr, 8, 8);
    assert!(!bump.can_deallocate(addr, 8, 8));
}

#[test]
fn bump_request_beyond_the_address_space_fails() {
    let top = usize::MAX - 0xfff;
    let mut bump = bump_over(top, 0xfff);
    assert_eq!(bump.allocate(0x1000, 1), Err(AllocError::OutOfMemory));
    assert_eq!(bump.allocate(usize::MAX, 1), Err(AllocError::OutOfMemory));
    assert_eq!(bump.allocate(8, 8), Ok(top));
    assert_eq!(bump.allocate(1, 0x2000), Err(AllocError::OutOfMemory));
    assert_eq!(bump.allocate(usize::MAX, 8), Err(AllocError::OutOfMemory));
    assert_eq!(bump.cursor(), top + 8);
    assert_eq!(bump.live_count(), 1);
}

#[test]
fn bump_empty_request_at_the_end_of_the_window() {
    let mut bump = bump_over(0, 16);
    assert_eq!(bump.allocate(16, 1), Ok(0));
    assert_eq!(bump.allocate(0, 1), Ok(16));
    assert_eq!(bump.allocate(0, 16), Ok(16));
    assert_eq!(bump.allocate(0, 32), Err(AllocError::OutOfMemory));
    assert_eq!(bump.live_count(), 3);
    assert_eq!(bump.cursor(), 16);
}

#[test]
fn bump_try_init_assigns_the_window_once() {
    let mut bump = BumpAllocator::new();
    assert_eq!(bump.try_init(usize::MAX - 1, 2), Err(InvariantViolation));
    assert!(bump.is_unassigned());
    assert_eq!(bump.try_init(usize::MAX - 2, 2), Ok(()));
    assert_eq!(bump.heap_end(), usize::MAX);
    assert_eq!(bump.try_init(0x1000, 16), Err(InvariantViolation));
    assert_eq!(bump.heap_start(), usize::MAX - 2);
    assert_eq!(bump.cursor(), usize::MAX - 2);
}

#[test]
fn bump_try_operations_refuse_what_the_plain_ones_exclude() {
    let mut bump = bump_over(0x1000, 32);
    assert_eq!(bump.try_deallocate(0x1000, 8, 8), Err(InvariantViolation));
    assert_eq!(bump.live_count(), 0);
    assert_eq!(bump.try_allocate(8, 8), Ok(0x1000));
    assert_eq!(bump.try_allocate(32, 8), Err(AllocError::OutOfMemory));
    assert_eq!(bump.try_allocate(24, 8), Ok(0x1008));
    assert_eq!(bump.try_deallocate(0x1008, 24, 8), Ok(()));
    assert_eq!(bump.cursor(), 0x1020);
    assert_eq!(bump.try_deallocate(0x1000, 8, 8), Ok(()));
    assert_eq!(bump.cursor(), 0x1000);
    assert_eq!(bump.try_deallocate(0x1000, 8, 8), Err(InvariantViolation));
}
