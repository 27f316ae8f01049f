use blog_os::memory::{
    table_index, BootInfoFrameAllocator, EntryRead, MemoryRegion, Walk, WalkStep, FRAME_SIZE,
    PAGE_TABLE_ENTRIES, PAGE_TABLE_LEVELS,
};

fn region(start: u64, end: u64, usable: bool) -> MemoryRegion {
    MemoryRegion { start, end, usable }
}

fn all_frames(map: Vec<MemoryRegion>) -> Vec<u64> {
    let mut provider = BootInfoFrameAllocator::init(map);
    let mut frames = Vec::new();
    while let Some(frame) = provider.allocate_frame() {
        frames.push(frame);
    }
    assert_eq!(provider.next(), frames.len() + 1);
    assert_eq!(provider.allocate_frame(), None);
    frames
}

#[test]
fn frame_size() {
    assert_eq!(FRAME_SIZE, 4096);
}

#[test]
fn frames_of_an_empty_map() {
    assert_eq!(all_frames(vec![]), Vec::<u64>::new());
    assert_eq!(all_frames(vec![region(0x1000, 0x9000, false)]), Vec::<u64>::new());
    assert_eq!(all_frames(vec![region(0x3000, 0x3000, true)]), Vec::<u64>::new());
    assert_eq!(all_frames(vec![region(0x4000, 0x3000, true)]), Vec::<u64>::new());
}

#[test]
fn frames_of_usable_regions_in_order() {
    let map = vec![
        region(0x0000, 0x1000, false),
        region(0x1000, 0x4000, true),
        region(0x4000, 0x8000, false),
        region(0x10_0000, 0x10_2000, true),
        region(0x9000, 0xa000, true),
    ];
    assert_eq!(
        all_frames(map),
        vec![0x1000, 0x2000, 0x3000, 0x10_0000, 0x10_1000, 0x9000]
    );
}

#[test]
fn frames_of_regions_that_are_not_frame_aligned() {
    assert_eq!(all_frames(vec![region(0x1800, 0x3000, true)]), vec![0x1000, 0x2000]);
    assert_eq!(all_frames(vec![region(0x1800, 0x3801, true)]), vec![0x1000, 0x2000, 0x3000]);
    assert_eq!(all_frames(vec![region(0x1800, 0x3800, true)]), vec![0x1000, 0x2000]);
    assert_eq!(all_frames(vec![region(0x1000, 0x1001, true)]), vec![0x1000]);
    assert_eq!(all_frames(vec![region(0x1fff, 0x2000, true)]), vec![0x1000]);
}

#[test]
fn frames_at_the_top_of_the_address_space() {
    let top = u64::MAX - 0xfff;
    assert_eq!(
        all_frames(vec![region(top - 0x1000, u64::MAX, true)]),
        vec![top - 0x1000, top]
    );
}

#[test]
fn usable_frame_by_position() {
    let provider = BootInfoFrameAllocator::init(vec![
        region(0x1000, 0x3000, true),
        region(0x8000, 0x9000, false),
        region(0x5000, 0x6000, true),
    ]);
    assert_eq!(provider.usable_frame(0), Some(0x1000));
    assert_eq!(provider.usable_frame(1), Some(0x2000));
    assert_eq!(provider.usable_frame(2), Some(0x5000));
    assert_eq!(provider.usable_frame(3), None);
    assert_eq!(provider.usable_frame(usize::MAX), None);
    assert_eq!(provider.next(), 0);
}

#[test]
fn frame_provider_only_moves_forward() {
    let mut provider = BootInfoFrameAllocator::init(vec![region(0x1000, 0x3000, true)]);
    assert_eq!(provider.allocate_frame(), Some(0x1000));
    assert_eq!(provider.next(), 1);
    assert_eq!(provider.allocate_frame(), Some(0x2000));
    assert_eq!(provider.allocate_frame(), None);
    assert_eq!(provider.allocate_frame(), None);
    assert_eq!(provider.next(), 4);
}

#[test]
fn page_table_shape() {
    assert_eq!(PAGE_TABLE_LEVELS, 4);
    assert_eq!(PAGE_TABLE_ENTRIES, 512);
}

#[test]
fn table_index_splits_the_address() {
    let addr: u64 = (5 << 39) | (17 << 30) | (511 << 21) | (1 << 12) | 0xabc;
    assert_eq!(table_index(addr, 4), 5);
    assert_eq!(table_index(addr, 3), 17);
    assert_eq!(table_index(addr, 2), 511);
    assert_eq!(table_index(addr, 1), 1);
    assert_eq!(table_index(0xb8000, 1), 0xb8);
    assert_eq!(table_index(0xb8000, 2), 0);
    assert_eq!(table_index(u64::MAX, 4), 511);
    assert_eq!(table_index(0x4444_4444_0000, 4), 0x88);
    assert_eq!(table_index(0x4444_4444_0000, 3), 0x111);
    assert_eq!(table_index(0x4444_4444_0000, 2), 0x022);
    assert_eq!(table_index(0x4444_4444_0000, 1), 0x040);
}

#[test]
fn walk_translates_through_four_tables() {
    let addr = 0x4444_4444_0123;
    let mut walk = Walk::new(addr, 0x1000);
    assert_eq!(walk.next_step(), WalkStep::ReadEntry { table: 0x1000, index: 0x88 });
    assert_eq!(
        walk.step(EntryRead::Frame(0x2000)),
        WalkStep::ReadEntry { table: 0x2000, index: 0x111 }
    );
    assert_eq!(
        walk.step(EntryRead::Frame(0x3000)),
        WalkStep::ReadEntry { table: 0x3000, index: 0x022 }
    );
    assert_eq!(
        walk.step(EntryRead::Frame(0x4000)),
        WalkStep::ReadEntry { table: 0x4000, index: 0x040 }
    );
    assert_eq!(walk.step(EntryRead::Frame(0x7_5000)), WalkStep::Done(Some(0x7_5123)));
    assert_eq!(walk.step(EntryRead::Frame(0x9000)), WalkStep::Done(Some(0x7_5123)));
    assert_eq!(walk.step(EntryRead::NotPresent), WalkStep::Done(Some(0x7_5123)));
}

#[test]
fn walk_ends_at_an_entry_that_is_not_present() {
    for depth in 0..4 {
        let mut walk = Walk::new(0xdead_beef, 0x1000);
        for level in 0..depth {
            assert!(matches!(
                walk.step(EntryRead::Frame(0x2000 + level * 0x1000)),
                WalkStep::ReadEntry { .. }
            ));
        }
        assert_eq!(walk.step(EntryRead::NotPresent), WalkStep::Done(None));
        assert_eq!(walk.step(EntryRead::Frame(0x5000)), WalkStep::Done(None));
        assert_eq!(walk.next_step(), WalkStep::Done(None));
    }
}
