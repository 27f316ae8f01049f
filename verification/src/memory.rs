//! Physical memory. The frame provider hands out, one after the other, the
//! frames of the regions that the boot loader reports as usable; it only
//! moves forward and keeps no record of what comes back. The walk through
//! the page tables finds the physical address behind a virtual one: it says
//! which entry to read, and the kernel reads it.

use vstd::prelude::*;

verus! {

/// Bytes in a frame of physical memory.
pub const FRAME_SIZE: u64 = 4096;

/// A region of physical memory as the boot loader reports it: the addresses
/// from `start` up to, not including, `end`, and whether the kernel may use
/// them.
#[derive(Debug, Clone, Copy, PartialEq, Eq)]
pub struct MemoryRegion {
    pub start: u64,
    pub end: u64,
    pub usable: bool,
}

/// Start address of the frame that holds `addr`.
pub open spec fn frame_of(addr: int) -> int {
    addr - addr % (FRAME_SIZE as int)
}

/// Number of frames that `region` yields: one for every step of a frame's
/// length from its start that stays below its end, none where the region is
/// not usable.
pub open spec fn frame_count(region: MemoryRegion) -> int {
    if region.usable && region.start < region.end {
        (region.end - region.start - 1) / (FRAME_SIZE as int) + 1
    } else {
        0
    }
}

/// The frame that `region` yields at position `n`.
pub open spec fn frame_at(region: MemoryRegion, n: int) -> int {
    frame_of(region.start + n * FRAME_SIZE)
}

/// The frame at position `n` among the frames that the regions of `map`
/// yield, region after region. There is none where the regions yield `n`
/// frames or fewer.
pub open spec fn usable_frame(map: Seq<MemoryRegion>, n: int) -> Option<int>
    decreases map.len(),
{
    if map.len() == 0 {
        None
    } else if n < frame_count(map[0]) {
        Some(frame_at(map[0], n))
    } else {
        usable_frame(map.drop_first(), n - frame_count(map[0]))
    }
}

/// Number of frames that the regions of `map` yield.
pub open spec fn usable_count(map: Seq<MemoryRegion>) -> int
    decreases map.len(),
{
    if map.len() == 0 {
        0
    } else {
        frame_count(map[0]) + usable_count(map.drop_first())
    }
}

/// There is a frame at every position below the number of frames and at no
/// other, and every frame lies in the address space.
pub proof fn lemma_usable_frame(map: Seq<MemoryRegion>, n: int)
    requires
        0 <= n,
    ensures
        0 <= usable_count(map),
        usable_frame(map, n).is_some() <==> n < usable_count(map),
        usable_frame(map, n) matches Some(frame) ==> 0 <= frame <= u64::MAX && frame % (
        FRAME_SIZE as int) == 0,
    decreases map.len(),
{
    if map.len() > 0 {
        let region = map[0];
        if n < frame_count(region) {
            lemma_frame_in_region(region, n);
        } else {
            lemma_usable_frame(map.drop_first(), n - frame_count(region));
        }
        lemma_usable_frame(map.drop_first(), 0);
    }
}

/// The address that yields the frame at position `n` of a region lies in
/// the region.
proof fn lemma_frame_in_region(region: MemoryRegion, n: int)
    requires
        0 <= n < frame_count(region),
    ensures
        region.start <= region.start + n * FRAME_SIZE < region.end,
{
}

/// Hands out the usable frames of a memory map.
pub struct BootInfoFrameAllocator {
    memory_map: Vec<MemoryRegion>,
    next: usize,
}

/// What a frame provider holds: the memory map, and the position of the
/// frame that it hands out next.
pub struct FrameCursor {
    pub map: Seq<MemoryRegion>,
    pub next: int,
}

impl View for BootInfoFrameAllocator {
    type V = FrameCursor;

    closed spec fn view(&self) -> FrameCursor {
        FrameCursor { map: self.memory_map@, next: self.next as int }
    }
}

impl BootInfoFrameAllocator {
    /// A frame provider over `memory_map` that has handed out nothing.
    pub fn init(memory_map: Vec<MemoryRegion>) -> (provider: Self)
        ensures
            provider@ == (FrameCursor { map: memory_map@, next: 0 }),
    {
        BootInfoFrameAllocator { memory_map, next: 0 }
    }

    /// Hands out the next usable frame, by its start address, or nothing
    /// when every usable frame was handed out. Each call moves on by one
    /// position.
    pub fn allocate_frame(&mut self) -> (frame: Option<u64>)
        requires
            old(self)@.next < usize::MAX,
        ensures
            final(self)@ == (FrameCursor { next: old(self)@.next + 1, ..old(self)@ }),
            match frame {
                Some(addr) => usable_frame(old(self)@.map, old(self)@.next) == Some(addr as int),
                None => usable_frame(old(self)@.map, old(self)@.next).is_none(),
            },
    {
        let frame = self.usable_frame(self.next);
        self.next += 1;
        frame
    }

    /// The usable frame at position `n`, by its start address.
    pub fn usable_frame(&self, n: usize) -> (frame: Option<u64>)
        ensures
            match frame {
                Some(addr) => usable_frame(self@.map, n as int) == Some(addr as int),
                None => usable_frame(self@.map, n as int).is_none(),
            },
    {
        let mut remaining: usize = n;
        let mut k: usize = 0;
        assert(self.memory_map@.skip(0) =~= self.memory_map@);
        while k < self.memory_map.len()
            invariant
                k <= self.memory_map.len(),
                usable_frame(self.memory_map@, n as int) == usable_frame(
                    self.memory_map@.skip(k as int),
                    remaining as int,
                ),
            decreases self.memory_map.len() - k,
        {
            let region = self.memory_map[k];
            proof {
                let rest = self.memory_map@.skip(k as int);
                assert(rest.drop_first() =~= self.memory_map@.skip(k + 1));
            }
            if region.usable && region.start < region.end {
                let count: u64 = (region.end - region.start - 1) / FRAME_SIZE + 1;
                if (remaining as u64) < count {
                    proof {
                        lemma_frame_in_region(region, remaining as int);
                    }
                    let addr: u64 = region.start + (remaining as u64) * FRAME_SIZE;
                    return Some(addr - addr % FRAME_SIZE);
                }
                remaining = remaining - (count as usize);
            }
            k = k + 1;
        }
        None
    }

    /// Number of frames that were asked for.
    pub fn next(&self) -> (next: usize)
        ensures
            next == self@.next,
    {
        self.next
    }
}

/// Levels of page tables between the root table and a frame.
pub const PAGE_TABLE_LEVELS: u8 = 4;

/// Entries in a page table.
pub const PAGE_TABLE_ENTRIES: u64 = 512;

/// Bytes of virtual memory that one entry of a table of `level` covers:
/// a frame at level 1, and 512 times the level below at every other.
pub open spec fn entry_span(level: int) -> int {
    if level <= 1 {
        0x1000
    } else if level == 2 {
        0x20_0000
    } else if level == 3 {
        0x4000_0000
    } else {
        0x80_0000_0000
    }
}

/// Position, in the table of `level`, of the entry that translates `addr`.
pub open spec fn table_index_spec(addr: int, level: int) -> int {
    (addr / entry_span(level)) % (PAGE_TABLE_ENTRIES as int)
}

/// Position, in the table of `level`, of the entry that translates `addr`.
pub fn table_index(addr: u64, level: u8) -> (index: u16)
    requires
        1 <= level <= PAGE_TABLE_LEVELS,
    ensures
        index == table_index_spec(addr as int, level as int),
        index < PAGE_TABLE_ENTRIES,
{
    let index: u64 = if level == 1 {
        assert((addr >> 12) & 0x1ff == (addr / 0x1000) % 512) by (bit_vector);
        (addr >> 12) & 0x1ff
    } else if level == 2 {
        assert((addr >> 21) & 0x1ff == (addr / 0x20_0000) % 512) by (bit_vector);
        (addr >> 21) & 0x1ff
    } else if level == 3 {
        assert((addr >> 30) & 0x1ff == (addr / 0x4000_0000) % 512) by (bit_vector);
        (addr >> 30) & 0x1ff
    } else {
        assert((addr >> 39) & 0x1ff == (addr / 0x80_0000_0000) % 512) by (bit_vector);
        (addr >> 39) & 0x1ff
    };
    index as u16
}

/// What the entry of a page table holds.
#[derive(Debug, Clone, Copy, PartialEq, Eq)]
pub enum EntryRead {
    /// The start address of the frame that the entry points to.
    Frame(u64),
    /// Nothing: the entry is not present.
    NotPresent,
}

/// What a translation needs next.
#[derive(Debug, Clone, Copy, PartialEq, Eq)]
pub enum WalkStep {
    /// The entry at position `index` of the table in the frame at `table`.
    ReadEntry { table: u64, index: u16 },
    /// Nothing: the translation ended, with the physical address, or with
    /// none where the address is not mapped.
    Done(Option<u64>),
}

/// The state of the translation of one address.
pub struct Walk {
    /// The virtual address that is translated.
    pub addr: u64,
    /// The level of the table that is read next; 0 when the translation
    /// ended.
    pub level: u8,
    /// The frame of the table that is read next, or the frame that the
    /// address lies in when the translation ended.
    pub table: u64,
    /// Whether an entry on the way was not present.
    pub unmapped: bool,
}

impl Walk {
    /// The state at the start: the root table is read.
    pub open spec fn start(addr: u64, level_4_table: u64) -> Walk {
        Walk { addr, level: PAGE_TABLE_LEVELS, table: level_4_table, unmapped: false }
    }

    /// Validity: the level is one of 0 to 4, and a frame that was reached
    /// leaves room for the offset in it.
    pub open spec fn wf(self) -> bool {
        &&& self.level <= PAGE_TABLE_LEVELS
        &&& self.level == 0 && !self.unmapped ==> self.table + FRAME_SIZE - 1 <= u64::MAX
    }

    /// What the translation needs in this state.
    pub open spec fn pending(self) -> WalkStep {
        if self.unmapped {
            WalkStep::Done(None)
        } else if self.level == 0 {
            WalkStep::Done(Some((self.table + self.addr % FRAME_SIZE) as u64))
        } else {
            WalkStep::ReadEntry {
                table: self.table,
                index: table_index_spec(self.addr as int, self.level as int) as u16,
            }
        }
    }

    /// The state after the entry was read. An entry that is not present ends
    /// the translation; the frame of any other is the table of the level
    /// below, or, at level 1, the frame that the address lies in. A
    /// translation that ended stays as it is.
    pub open spec fn after(self, entry: EntryRead) -> Walk {
        if self.unmapped || self.level == 0 {
            self
        } else {
            match entry {
                EntryRead::NotPresent => Walk { unmapped: true, ..self },
                EntryRead::Frame(frame) => Walk {
                    level: (self.level - 1) as u8,
                    table: frame,
                    ..self
                },
            }
        }
    }
}

/// Where all four entries on the way are present, the translation ends
/// with the frame of the last entry and the offset of the address in its
/// page.
pub proof fn lemma_walk_translates(addr: u64, root: u64, p3: u64, p2: u64, p1: u64, frame: u64)
    requires
        frame + FRAME_SIZE - 1 <= u64::MAX,
    ensures
        Walk::start(addr, root).after(EntryRead::Frame(p3)).after(EntryRead::Frame(p2)).after(
            EntryRead::Frame(p1),
        ).after(EntryRead::Frame(frame)).pending() == WalkStep::Done(
            Some((frame + addr % FRAME_SIZE) as u64),
        ),
        Walk::start(addr, root).pending() == (WalkStep::ReadEntry {
            table: root,
            index: table_index_spec(addr as int, 4) as u16,
        }),
        Walk::start(addr, root).after(EntryRead::Frame(p3)).pending() == (WalkStep::ReadEntry {
            table: p3,
            index: table_index_spec(addr as int, 3) as u16,
        }),
{
}

/// An entry that is not present ends the translation without an address,
/// whatever is read afterwards.
pub proof fn lemma_walk_unmapped(walk: Walk, entry: EntryRead)
    requires
        walk.level > 0,
        !walk.unmapped,
    ensures
        walk.after(EntryRead::NotPresent).pending() == WalkStep::Done(None),
        walk.after(EntryRead::NotPresent).after(entry) == walk.after(EntryRead::NotPresent),
{
}

impl Walk {
    /// Starts the translation of `addr` through the root table in the frame
    /// at `level_4_table`.
    pub fn new(addr: u64, level_4_table: u64) -> (walk: Walk)
        ensures
            walk == Walk::start(addr, level_4_table),
            walk.wf(),
    {
        Walk { addr, level: PAGE_TABLE_LEVELS, table: level_4_table, unmapped: false }
    }

    /// What the translation needs now.
    pub fn next_step(&self) -> (step: WalkStep)
        requires
            self.wf(),
        ensures
            step == self.pending(),
    {
        if self.unmapped {
            WalkStep::Done(None)
        } else if self.level == 0 {
            WalkStep::Done(Some(self.table + self.addr % FRAME_SIZE))
        } else {
            WalkStep::ReadEntry { table: self.table, index: table_index(self.addr, self.level) }
        }
    }

    /// Takes the entry that was read and returns what the translation needs
    /// next.
    pub fn step(&mut self, entry: EntryRead) -> (step: WalkStep)
        requires
            old(self).wf(),
            entry matches EntryRead::Frame(frame) ==> frame + FRAME_SIZE - 1 <= u64::MAX,
        ensures
            *final(self) == old(self).after(entry),
            final(self).wf(),
            step == final(self).pending(),
    {
        if !self.unmapped && self.level > 0 {
            match entry {
                EntryRead::NotPresent => {
                    self.unmapped = true;
                },
                EntryRead::Frame(frame) => {
                    self.level = self.level - 1;
                    self.table = frame;
                },
            }
        }
        self.next_step()
    }
}

} // verus!
