//! The free-list strategy: the unused regions of the window, most recently
//! freed first, searched first fit. A region is split where a request leaves
//! room behind it; neighbouring regions are never joined.

use vstd::arithmetic::power2::is_pow2;
use vstd::prelude::*;

use crate::allocator::ledger::{accepts, answers, apart, grant_in_window, Grant, HeapModel};
use crate::allocator::{
    align_up, align_up_spec, checked_align_up, guarded, is_aligned,
    lemma_align_up_is_least_multiple, lemma_aligned_transitive, lemma_small_powers, AllocError,
    InvariantViolation, Locked,
};

verus! {

/// Bytes that the record of a free region takes at the start of the region:
/// its size and the link to the next region.
pub const NODE_SIZE: usize = 16;

/// Alignment that the record of a free region needs.
pub const NODE_ALIGN: usize = 8;

/// A run of bytes: `size` of them from `start` on.
pub struct Region {
    pub start: int,
    pub size: int,
}

impl Region {
    /// First address past the region.
    pub open spec fn end(self) -> int {
        self.start + self.size
    }

    /// Where in the region a request aligned to `align` would be placed.
    pub open spec fn placement(self, align: int) -> int {
        align_up_spec(self.start, align)
    }

    /// Whether the region can serve a request for `size` bytes at a multiple
    /// of `align`: the request ends inside the region, and what is left
    /// behind it is nothing or enough for the record of a free region.
    pub open spec fn hosts(self, size: int, align: int) -> bool {
        let alloc_end = self.placement(align) + size;
        &&& alloc_end <= self.end()
        &&& (self.end() - alloc_end == 0 || self.end() - alloc_end >= NODE_SIZE)
    }

    /// Whether the region can be held as free in the window: it can carry
    /// its own record and lies in the window.
    pub open spec fn holds_record_in(self, heap_start: int, heap_end: int) -> bool {
        &&& is_aligned(self.start, NODE_ALIGN as int)
        &&& self.size >= NODE_SIZE
        &&& heap_start <= self.start
        &&& self.end() <= heap_end
    }

    /// The region and `other` share no byte.
    pub open spec fn apart_from(self, other: Region) -> bool {
        self.end() <= other.start || other.end() <= self.start
    }
}

/// The alignment that a request is raised to, so that the bytes it gets can
/// later carry the record of a free region.
pub open spec fn adjusted_align(align: int) -> int {
    if align < NODE_ALIGN {
        NODE_ALIGN as int
    } else {
        align
    }
}

/// The size that a request is raised to: a multiple of the raised alignment,
/// and enough for the record of a free region.
pub open spec fn adjusted_size(size: int, align: int) -> int {
    let padded = align_up_spec(size, adjusted_align(align));
    if padded < NODE_SIZE {
        NODE_SIZE as int
    } else {
        padded
    }
}

/// Position of the first region of `free` that hosts the request, if any.
pub open spec fn first_fit(free: Seq<Region>, size: int, align: int) -> Option<int>
    decreases free.len(),
{
    if free.len() == 0 {
        None
    } else if free[0].hosts(size, align) {
        Some(0)
    } else {
        match first_fit(free.drop_first(), size, align) {
            Some(k) => Some(k + 1),
            None => None,
        }
    }
}

/// `first_fit` names a region that hosts the request and that no hosting
/// region precedes; it names none only where no region hosts the request.
pub proof fn lemma_first_fit(free: Seq<Region>, size: int, align: int)
    ensures
        match first_fit(free, size, align) {
            Some(k) => {
                &&& 0 <= k < free.len()
                &&& free[k].hosts(size, align)
                &&& forall|j: int| 0 <= j < k ==> !(#[trigger] free[j]).hosts(size, align)
            },
            None => forall|j: int| 0 <= j < free.len() ==> !(#[trigger] free[j]).hosts(size, align),
        },
    decreases free.len(),
{
    if free.len() > 0 && !free[0].hosts(size, align) {
        let rest = free.drop_first();
        lemma_first_fit(rest, size, align);
        match first_fit(rest, size, align) {
            Some(k) => {
                assert forall|j: int| 0 <= j < k + 1 implies !(#[trigger] free[j]).hosts(
                    size,
                    align,
                ) by {
                    if j > 0 {
                        assert(free[j] == rest[j - 1]);
                    }
                }
            },
            None => {
                assert forall|j: int| 0 <= j < free.len() implies !(#[trigger] free[j]).hosts(
                    size,
                    align,
                ) by {
                    if j > 0 {
                        assert(free[j] == rest[j - 1]);
                    }
                }
            },
        }
    }
}

/// The state of the free-list strategy.
pub struct LinkListState {
    /// First address of the window.
    pub heap_start: int,
    /// First address past the window.
    pub heap_end: int,
    /// The free regions, the most recently freed first.
    pub free: Seq<Region>,
}

impl LinkListState {
    /// The state before a window is assigned.
    pub open spec fn unassigned() -> LinkListState {
        LinkListState { heap_start: 0, heap_end: 0, free: Seq::empty() }
    }

    /// The state over the window of `heap_size` bytes from `heap_start`: the
    /// whole window is one free region.
    pub open spec fn over(heap_start: int, heap_size: int) -> LinkListState {
        LinkListState {
            heap_start,
            heap_end: heap_start + heap_size,
            free: seq![Region { start: heap_start, size: heap_size }],
        }
    }

    /// Whether an allocator can hold the state: it is valid, and its window
    /// lies in the address space.
    pub open spec fn representable(self) -> bool {
        self.wf() && self.heap_end <= usize::MAX
    }

    /// Whether `assigned` is what an allocator in this state answers when it
    /// is given the window of `heap_size` bytes from `heap_start`: it takes
    /// the window exactly where it has none and can hold the window as one
    /// free region.
    pub open spec fn takes_window(
        self,
        heap_start: int,
        heap_size: int,
        assigned: Result<(), InvariantViolation>,
    ) -> bool {
        assigned is Ok <==> self == LinkListState::unassigned() && window_valid(
            heap_start,
            heap_size,
        )
    }

    /// The state with `region` put in front of the free regions.
    pub open spec fn with_free(self, region: Region) -> LinkListState {
        LinkListState { free: seq![region] + self.free, ..self }
    }

    /// The state with the free region at position `k` taken out.
    pub open spec fn without(self, k: int) -> LinkListState {
        LinkListState { free: self.free.remove(k), ..self }
    }

    /// The state after the free region at position `k` has served a request
    /// of `size` bytes at a multiple of `align`, both already adjusted: the
    /// region leaves the list, and what it has left behind the request
    /// becomes the first free region.
    pub open spec fn carved(self, k: int, size: int, align: int) -> LinkListState {
        let region = self.free[k];
        let alloc_end = region.placement(align) + size;
        if region.end() - alloc_end > 0 {
            self.without(k).with_free(
                Region { start: alloc_end, size: region.end() - alloc_end },
            )
        } else {
            self.without(k)
        }
    }
}

/// What adjusting a request gives: a power of two that is a multiple of the
/// record's alignment, and a size that covers the request and the record.
/// An address aligned for the adjusted request is aligned for the request
/// and for a record.
pub proof fn lemma_adjusted(size: int, align: int)
    requires
        0 <= size,
        is_pow2(align),
    ensures
        is_pow2(adjusted_align(align)),
        adjusted_align(align) >= NODE_ALIGN,
        adjusted_size(size, align) >= NODE_SIZE,
        adjusted_size(size, align) >= size,
        is_aligned(adjusted_size(size, align), NODE_ALIGN as int),
        forall|x: int|
            0 <= x && #[trigger] is_aligned(x, adjusted_align(align)) ==> is_aligned(x, align)
                && is_aligned(x, NODE_ALIGN as int),
{
    let a = adjusted_align(align);
    assert(is_pow2(8)) by {
        reveal_with_fuel(is_pow2, 5);
    }
    lemma_small_powers(align);
    lemma_small_powers(a);
    lemma_align_up_is_least_multiple(size, a);
    let padded = align_up_spec(size, a);
    lemma_aligned_transitive(padded, a, NODE_ALIGN as int);
    assert forall|x: int| 0 <= x && #[trigger] is_aligned(x, a) implies is_aligned(x, align)
        && is_aligned(x, NODE_ALIGN as int) by {
        lemma_aligned_transitive(x, a, NODE_ALIGN as int);
        if align < NODE_ALIGN {
            assert(is_aligned(NODE_ALIGN as int, align));
            lemma_aligned_transitive(x, NODE_ALIGN as int, align);
        }
    }
}

impl HeapModel for LinkListState {
    open spec fn wf(self) -> bool {
        &&& 0 <= self.heap_start <= self.heap_end
        &&& forall|k: int|
            0 <= k < self.free.len() ==> (#[trigger] self.free[k]).holds_record_in(
                self.heap_start,
                self.heap_end,
            )
    }

    open spec fn heap_start(self) -> int {
        self.heap_start
    }

    open spec fn heap_end(self) -> int {
        self.heap_end
    }

    open spec fn reserved(size: int, align: int) -> int {
        adjusted_size(size, align)
    }

    open spec fn allocated(self, size: int, align: int) -> (Self, Option<int>) {
        let s = adjusted_size(size, align);
        let a = adjusted_align(align);
        match first_fit(self.free, s, a) {
            Some(k) => (self.carved(k, s, a), Some(self.free[k].placement(a))),
            None => (self, None),
        }
    }

    open spec fn releasable(self, addr: int, size: int, align: int) -> bool {
        Region { start: addr, size: adjusted_size(size, align) }.holds_record_in(
            self.heap_start,
            self.heap_end,
        )
    }

    open spec fn deallocated(self, addr: int, size: int, align: int) -> Self {
        self.with_free(Region { start: addr, size: adjusted_size(size, align) })
    }

    open spec fn accounts_for(self, live: Seq<Grant>) -> bool {
        &&& forall|i: int|
            0 <= i < live.len() ==> {
                &&& grant_in_window(#[trigger] live[i], self.heap_start, self.heap_end)
                &&& live[i].reserved == adjusted_size(live[i].size, live[i].align)
                &&& is_aligned(live[i].addr, NODE_ALIGN as int)
            }
        &&& forall|i: int, j: int|
            0 <= i < j < live.len() ==> apart(#[trigger] live[i], #[trigger] live[j])
        &&& forall|k: int, i: int|
            0 <= k < self.free.len() && 0 <= i < live.len() ==> (#[trigger] self.free[k]).apart_from(
                extent(#[trigger] live[i]),
            )
        &&& forall|k: int, l: int|
            0 <= k < l < self.free.len() ==> (#[trigger] self.free[k]).apart_from(
                #[trigger] self.free[l],
            )
    }

    proof fn lemma_allocated(self, live: Seq<Grant>, size: int, align: int) {
        let s = adjusted_size(size, align);
        let a = adjusted_align(align);
        lemma_adjusted(size, align);
        lemma_small_powers(a);
        lemma_first_fit(self.free, s, a);
        match first_fit(self.free, s, a) {
            Some(k) => {
                let region = self.free[k];
                lemma_align_up_is_least_multiple(region.start, a);
                lemma_carved(self, k, s, a);
            },
            None => {},
        }
    }

    proof fn lemma_deallocated(self, live: Seq<Grant>, slot: int) {
    }

    proof fn lemma_ledger_sound(self, live: Seq<Grant>) {
    }
}

/// A window that is one free region is a valid state, and it agrees with the
/// empty ledger.
pub proof fn lemma_over_accounts_for_nothing(heap_start: int, heap_size: int)
    requires
        0 <= heap_start,
        is_aligned(heap_start, NODE_ALIGN as int),
        heap_size >= NODE_SIZE,
    ensures
        LinkListState::over(heap_start, heap_size).wf(),
        LinkListState::over(heap_start, heap_size).accounts_for(Seq::empty()),
{
}

/// The bytes set aside for a grant, as a region.
pub open spec fn extent(grant: Grant) -> Region {
    Region { start: grant.addr, size: grant.reserved }
}

/// Position, before the free region at `k` served a request, of the region
/// that the free region at `m` afterwards is or is a part of.
pub open spec fn carved_origin(state: LinkListState, k: int, size: int, align: int, m: int) -> int {
    let region = state.free[k];
    let alloc_end = region.placement(align) + size;
    if region.end() - alloc_end > 0 {
        if m == 0 {
            k
        } else if m - 1 < k {
            m - 1
        } else {
            m
        }
    } else {
        if m < k {
            m
        } else {
            m + 1
        }
    }
}

/// After the free region at `k` served a request, every free region is one
/// that was free before, but for the first where the request left bytes
/// behind it: that one is what was left.
pub proof fn lemma_carved(state: LinkListState, k: int, size: int, align: int)
    requires
        state.wf(),
        0 <= k < state.free.len(),
        state.free[k].hosts(size, align),
        0 < align,
        is_aligned(align, NODE_ALIGN as int),
        is_aligned(size, NODE_ALIGN as int),
        0 <= size,
    ensures
        state.carved(k, size, align).wf(),
        state.carved(k, size, align).heap_start == state.heap_start,
        state.carved(k, size, align).heap_end == state.heap_end,
        state.free[k].start <= state.free[k].placement(align),
        state.free[k].placement(align) + size <= state.free[k].end(),
        is_aligned(state.free[k].placement(align), NODE_ALIGN as int),
        forall|m: int|
            0 <= m < state.carved(k, size, align).free.len() ==> {
                let n = carved_origin(state, k, size, align, m);
                let part = #[trigger] state.carved(k, size, align).free[m];
                &&& 0 <= n < state.free.len()
                &&& n != k ==> part == state.free[n]
                &&& n == k ==> part == Region {
                    start: state.free[k].placement(align) + size,
                    size: state.free[k].end() - (state.free[k].placement(align) + size),
                }
            },
        forall|m: int, l: int|
            0 <= m < l < state.carved(k, size, align).free.len() ==> carved_origin(
                state,
                k,
                size,
                align,
                m,
            ) != carved_origin(state, k, size, align, l),
{
    let region = state.free[k];
    let start = region.placement(align);
    let alloc_end = start + size;
    lemma_align_up_is_least_multiple(region.start, align);
    lemma_aligned_transitive(start, align, NODE_ALIGN as int);
    assert(is_aligned(alloc_end, NODE_ALIGN as int)) by {
        assert(size % 8 == 0);
    }
}

/// A region that hosts the request and that no hosting region precedes is
/// the one that `first_fit` names.
pub proof fn lemma_first_fit_is(free: Seq<Region>, size: int, align: int, k: int)
    requires
        0 <= k < free.len(),
        free[k].hosts(size, align),
        forall|j: int| 0 <= j < k ==> !(#[trigger] free[j]).hosts(size, align),
    ensures
        first_fit(free, size, align) == Some(k),
{
    lemma_first_fit(free, size, align);
}

/// Where no region hosts the request, `first_fit` names none.
pub proof fn lemma_first_fit_none(free: Seq<Region>, size: int, align: int)
    requires
        forall|j: int| 0 <= j < free.len() ==> !(#[trigger] free[j]).hosts(size, align),
    ensures
        first_fit(free, size, align).is_none(),
{
    lemma_first_fit(free, size, align);
}

/// A free region as the allocator holds it: where it starts and how long it
/// is.
#[derive(Clone, Copy, Debug)]
pub struct ListNode {
    start: usize,
    size: usize,
}

impl View for ListNode {
    type V = Region;

    closed spec fn view(&self) -> Region {
        Region { start: self.start as int, size: self.size as int }
    }
}

impl ListNode {
    /// Every region ends in the address space.
    #[verifier::type_invariant]
    pub open spec fn inv(self) -> bool {
        self@.end() <= usize::MAX
    }

    /// The record of the region of `size` bytes from `start`.
    pub fn new(start: usize, size: usize) -> (node: Self)
        requires
            start + size <= usize::MAX,
        ensures
            node@ == (Region { start: start as int, size: size as int }),
    {
        ListNode { start, size }
    }

    /// First address of the region.
    pub fn start_addr(&self) -> (addr: usize)
        ensures
            addr == self@.start,
    {
        self.start
    }

    /// First address past the region.
    pub fn end_addr(&self) -> (addr: usize)
        ensures
            addr == self@.end(),
    {
        proof {
            use_type_invariant(self);
        }
        self.start + self.size
    }
}

/// Whether a window can be held as one free region: it can carry the
/// region's record and lies in the address space.
pub open spec fn window_valid(heap_start: int, heap_size: int) -> bool {
    &&& is_aligned(heap_start, NODE_ALIGN as int)
    &&& heap_size >= NODE_SIZE
    &&& heap_start + heap_size <= usize::MAX
}

/// The free list that a stack of records stands for: the record pushed last
/// is the head of the list.
pub open spec fn list_of(records: Seq<ListNode>) -> Seq<Region> {
    Seq::new(records.len(), |i: int| records[records.len() - 1 - i]@)
}

/// An allocator that keeps the free regions of its window in a list and
/// serves a request from the first region that can host it.
pub struct LinkListAllocator {
    heap_start: usize,
    heap_end: usize,
    regions: Vec<ListNode>,
}

impl View for LinkListAllocator {
    type V = LinkListState;

    closed spec fn view(&self) -> LinkListState {
        LinkListState {
            heap_start: self.heap_start as int,
            heap_end: self.heap_end as int,
            free: list_of(self.regions@),
        }
    }
}

impl LinkListAllocator {
    /// Every value of the type has a valid state.
    #[verifier::type_invariant]
    pub open spec fn inv(self) -> bool {
        self@.wf()
    }

    /// The window of an allocator lies in the address space.
    pub proof fn lemma_window_in_address_space(self)
        ensures
            0 <= self@.heap_start <= usize::MAX,
            0 <= self@.heap_end <= usize::MAX,
    {
    }

    /// Creates an allocator that has no window yet: every request fails.
    pub fn new() -> (list: Self)
        ensures
            list@ == LinkListState::unassigned(),
            list@.wf(),
    {
        let list = LinkListAllocator { heap_start: 0, heap_end: 0, regions: Vec::new() };
        assert(list@.free =~= Seq::empty());
        list
    }

    /// Assigns the window of `heap_size` bytes from `heap_start`, all of it
    /// free. The window is assigned once: an allocator that has one does not
    /// take another.
    pub fn init(&mut self, heap_start: usize, heap_size: usize)
        requires
            old(self)@ == LinkListState::unassigned(),
            window_valid(heap_start as int, heap_size as int),
        ensures
            final(self)@ == LinkListState::over(heap_start as int, heap_size as int),
            final(self)@.wf(),
    {
        let mut regions: Vec<ListNode> = Vec::new();
        regions.push(ListNode::new(heap_start, heap_size));
        let list = LinkListAllocator { heap_start, heap_end: heap_start + heap_size, regions };
        assert(list@.free =~= seq![Region { start: heap_start as int, size: heap_size as int }]);
        *self = list;
    }

    /// Assigns the window like `init` where the allocator has none and the
    /// window can be held as one free region. Refuses, and changes nothing,
    /// where the allocator has a window already or the window cannot.
    pub fn try_init(&mut self, heap_start: usize, heap_size: usize) -> (assigned: Result<
        (),
        InvariantViolation,
    >)
        ensures
            final(self)@.wf(),
            match assigned {
                Ok(_) => {
                    &&& old(self)@ == LinkListState::unassigned()
                    &&& window_valid(heap_start as int, heap_size as int)
                    &&& final(self)@ == LinkListState::over(heap_start as int, heap_size as int)
                },
                Err(_) => {
                    &&& !(old(self)@ == LinkListState::unassigned() && window_valid(
                        heap_start as int,
                        heap_size as int,
                    ))
                    &&& final(self)@ == old(self)@
                },
            },
    {
        proof {
            use_type_invariant(&*self);
        }
        if self.is_unassigned() && heap_start % NODE_ALIGN == 0 && heap_size >= NODE_SIZE
            && heap_start.checked_add(heap_size).is_some() {
            self.init(heap_start, heap_size);
            Ok(())
        } else {
            Err(InvariantViolation)
        }
    }

    /// Puts the region of `size` bytes from `addr` in front of the free list.
    fn add_free_region(&mut self, addr: usize, size: usize)
        requires
            (Region { start: addr as int, size: size as int }).holds_record_in(
                old(self)@.heap_start,
                old(self)@.heap_end,
            ),
        ensures
            final(self)@ == old(self)@.with_free(Region { start: addr as int, size: size as int }),
            final(self)@.wf(),
    {
        proof {
            use_type_invariant(&*self);
        }
        let node = ListNode::new(addr, size);
        let ghost before = self@;
        let mut regions: Vec<ListNode> = Vec::new();
        core::mem::swap(&mut self.regions, &mut regions);
        regions.push(node);
        proof {
            let free = list_of(regions@);
            assert(free =~= seq![node@] + before.free);
        }
        self.regions = regions;
    }

    /// Looks for the first free region that hosts a request for `size` bytes
    /// at a multiple of `align` and takes it out of the list. Returns the
    /// region and the address at which the request is placed in it.
    pub fn find_region(&mut self, size: usize, align: usize) -> (found: Option<(ListNode, usize)>)
        requires
            is_pow2(align as int),
        ensures
            final(self)@.wf(),
            match first_fit(old(self)@.free, size as int, align as int) {
                Some(k) => {
                    &&& found matches Some((region, alloc_start))
                    &&& region@ == old(self)@.free[k]
                    &&& alloc_start == old(self)@.free[k].placement(align as int)
                    &&& final(self)@ == old(self)@.without(k)
                },
                None => found.is_none() && final(self)@ == old(self)@,
            },
    {
        proof {
            use_type_invariant(&*self);
        }
        let ghost before = self@;
        let mut regions: Vec<ListNode> = Vec::new();
        core::mem::swap(&mut self.regions, &mut regions);
        let mut i: usize = regions.len();
        while i > 0
            invariant
                i <= regions.len(),
                self.heap_start == before.heap_start,
                self.heap_end == before.heap_end,
                self.regions@.len() == 0,
                before == old(self)@,
                before.wf(),
                before.free == list_of(regions@),
                is_pow2(align as int),
                forall|j: int|
                    0 <= j < regions.len() - i ==> !(#[trigger] before.free[j]).hosts(
                        size as int,
                        align as int,
                    ),
            decreases i,
        {
            i = i - 1;
            let ghost k = regions.len() - 1 - i;
            match Self::alloc_from_region(&regions[i], size, align) {
                Ok(alloc_start) => {
                    let region = regions.remove(i);
                    proof {
                        lemma_first_fit_is(before.free, size as int, align as int, k);
                        let free = list_of(regions@);
                        assert(free =~= before.free.remove(k));
                    }
                    self.regions = regions;
                    return Some((region, alloc_start));
                },
                Err(_) => {},
            }
        }
        proof {
            lemma_first_fit_none(before.free, size as int, align as int);
        }
        self.regions = regions;
        None
    }

    /// Tries `region` for a request of `size` bytes at a multiple of `align`.
    /// Returns the address at which the request is placed in the region, or
    /// an error where the region does not host it.
    pub fn alloc_from_region(region: &ListNode, size: usize, align: usize) -> (placed: Result<
        usize,
        (),
    >)
        requires
            is_pow2(align as int),
        ensures
            match placed {
                Ok(alloc_start) => region@.hosts(size as int, align as int) && alloc_start
                    == region@.placement(align as int),
                Err(_) => !region@.hosts(size as int, align as int),
            },
    {
        proof {
            use_type_invariant(region);
            lemma_small_powers(align as int);
            lemma_align_up_is_least_multiple(region@.start, align as int);
        }
        let alloc_start = match checked_align_up(region.start_addr(), align) {
            Some(start) => start,
            None => {
                return Err(());
            },
        };
        let alloc_end = match alloc_start.checked_add(size) {
            Some(end) => end,
            None => {
                return Err(());
            },
        };
        if alloc_end > region.end_addr() {
            return Err(());
        }
        let excess_size = region.end_addr() - alloc_end;
        if excess_size > 0 && excess_size < NODE_SIZE {
            return Err(());
        }
        Ok(alloc_start)
    }

    /// Adjusts a request so that the bytes it gets can later carry the record
    /// of a free region. Returns the adjusted size and alignment.
    pub fn size_align(size: usize, align: usize) -> (adjusted: (usize, usize))
        requires
            is_pow2(align as int),
            align_up_spec(size as int, adjusted_align(align as int)) <= usize::MAX,
        ensures
            adjusted.0 == adjusted_size(size as int, align as int),
            adjusted.1 == adjusted_align(align as int),
    {
        proof {
            lemma_adjusted(size as int, align as int);
            lemma_align_up_is_least_multiple(size as int, adjusted_align(align as int));
        }
        let align = if align < NODE_ALIGN {
            NODE_ALIGN
        } else {
            align
        };
        let padded = align_up(size, align);
        let size = if padded < NODE_SIZE {
            NODE_SIZE
        } else {
            padded
        };
        (size, align)
    }

    /// Adjusts a request like `size_align`, or reports that the adjusted size
    /// lies beyond the address space.
    pub fn checked_size_align(size: usize, align: usize) -> (adjusted: Option<(usize, usize)>)
        requires
            is_pow2(align as int),
        ensures
            match adjusted {
                Some((size_up, align_up)) => size_up == adjusted_size(size as int, align as int)
                    && align_up == adjusted_align(align as int),
                None => adjusted_size(size as int, align as int) > usize::MAX,
            },
    {
        proof {
            lemma_adjusted(size as int, align as int);
        }
        let align = if align < NODE_ALIGN {
            NODE_ALIGN
        } else {
            align
        };
        match checked_align_up(size, align) {
            Some(padded) => {
                let size = if padded < NODE_SIZE {
                    NODE_SIZE
                } else {
                    padded
                };
                Some((size, align))
            },
            None => None,
        }
    }

    /// Grants the bytes of an adjusted request from the first free region
    /// that hosts it. What the region has left behind the request goes back
    /// to the front of the list. Fails, and changes nothing, where no region
    /// hosts the request.
    pub fn allocate(&mut self, size: usize, align: usize) -> (granted: Result<usize, AllocError>)
        requires
            is_pow2(align as int),
        ensures
            old(self)@.wf(),
            final(self)@.wf(),
            final(self)@ == old(self)@.allocated(size as int, align as int).0,
            match granted {
                Ok(addr) => old(self)@.allocated(size as int, align as int).1 == Some(addr as int),
                Err(e) => e == AllocError::OutOfMemory && old(self)@.allocated(
                    size as int,
                    align as int,
                ).1.is_none(),
            },
            granted matches Ok(addr) ==> {
                &&& is_aligned(addr as int, align as int)
                &&& is_aligned(addr as int, NODE_ALIGN as int)
                &&& old(self)@.heap_start <= addr < old(self)@.heap_end
                &&& addr + size <= addr + adjusted_size(size as int, align as int)
                    <= old(self)@.heap_end <= usize::MAX
            },
            (forall|k: int|
                0 <= k < old(self)@.free.len() ==> (#[trigger] old(self)@.free[k]).placement(
                    adjusted_align(align as int),
                ) + adjusted_size(size as int, align as int) > usize::MAX) ==> granted == Err::<
                usize,
                AllocError,
            >(AllocError::OutOfMemory),
    {
        proof {
            use_type_invariant(&*self);
            lemma_adjusted(size as int, align as int);
            lemma_first_fit(
                self@.free,
                adjusted_size(size as int, align as int),
                adjusted_align(align as int),
            );
        }
        let ghost before = self@;
        let ghost s = adjusted_size(size as int, align as int);
        let ghost a = adjusted_align(align as int);
        let (size, align) = match Self::checked_size_align(size, align) {
            Some(adjusted) => adjusted,
            None => {
                proof {
                    lemma_first_fit_none(before.free, s, a);
                }
                return Err(AllocError::OutOfMemory);
            },
        };
        match self.find_region(size, align) {
            Some((region, alloc_start)) => {
                let ghost k = first_fit(before.free, s, a).unwrap();
                proof {
                    lemma_small_powers(a);
                    lemma_carved(before, k, s, a);
                    lemma_align_up_is_least_multiple(before.free[k].start, a);
                }
                let alloc_end = alloc_start + size;
                let excess_size = region.end_addr() - alloc_end;
                if excess_size > 0 {
                    self.add_free_region(alloc_end, excess_size);
                }
                Ok(alloc_start)
            },
            None => Err(AllocError::OutOfMemory),
        }
    }

    /// Takes back the bytes of an adjusted request and puts them in front of
    /// the free list, whatever lies next to them.
    pub fn deallocate(&mut self, ptr: usize, size: usize, align: usize)
        requires
            is_pow2(align as int),
            old(self)@.releasable(ptr as int, size as int, align as int),
        ensures
            final(self)@.wf(),
            final(self)@ == old(self)@.deallocated(ptr as int, size as int, align as int),
    {
        proof {
            use_type_invariant(&*self);
            lemma_adjusted(size as int, align as int);
        }
        let (size, _) = Self::size_align(size, align);
        self.add_free_region(ptr, size);
    }

    /// Takes back a grant like `deallocate` where the allocator can accept
    /// it. Refuses, and changes nothing, where it cannot.
    pub fn try_deallocate(&mut self, ptr: usize, size: usize, align: usize) -> (released: Result<
        (),
        InvariantViolation,
    >)
        requires
            is_pow2(align as int),
        ensures
            final(self)@.wf(),
            match released {
                Ok(_) => {
                    &&& old(self)@.releasable(ptr as int, size as int, align as int)
                    &&& final(self)@ == old(self)@.deallocated(
                        ptr as int,
                        size as int,
                        align as int,
                    )
                },
                Err(_) => {
                    &&& !old(self)@.releasable(ptr as int, size as int, align as int)
                    &&& final(self)@ == old(self)@
                },
            },
    {
        if self.can_deallocate(ptr, size, align) {
            self.deallocate(ptr, size, align);
            Ok(())
        } else {
            proof {
                use_type_invariant(&*self);
            }
            Err(InvariantViolation)
        }
    }

    /// Whether the allocator can take back `ptr` as granted to a request for
    /// `size` bytes at a multiple of `align`: the bytes of the adjusted
    /// request lie in the window and can carry the record of a free region.
    pub fn can_deallocate(&self, ptr: usize, size: usize, align: usize) -> (ok: bool)
        requires
            is_pow2(align as int),
        ensures
            ok == self@.releasable(ptr as int, size as int, align as int),
    {
        proof {
            use_type_invariant(self);
            lemma_adjusted(size as int, align as int);
        }
        match Self::checked_size_align(size, align) {
            Some((adjusted, _)) => {
                ptr % NODE_ALIGN == 0 && self.heap_start <= ptr && ptr <= self.heap_end
                    && adjusted <= self.heap_end - ptr
            },
            None => false,
        }
    }

    /// Whether the allocator has no window yet.
    pub fn is_unassigned(&self) -> (unassigned: bool)
        ensures
            unassigned == (self@ == LinkListState::unassigned()),
    {
        let unassigned = self.heap_start == 0 && self.heap_end == 0 && self.regions.len() == 0;
        proof {
            if unassigned {
                assert(self@.free =~= Seq::empty());
            } else {
                assert(self@.free.len() == self.regions@.len());
            }
        }
        unassigned
    }

    /// First address of the window.
    pub fn heap_start(&self) -> (addr: usize)
        ensures
            addr == self@.heap_start,
    {
        self.heap_start
    }

    /// First address past the window.
    pub fn heap_end(&self) -> (addr: usize)
        ensures
            addr == self@.heap_end,
    {
        self.heap_end
    }

    /// Number of free regions.
    pub fn region_count(&self) -> (count: usize)
        ensures
            count == self@.free.len(),
    {
        self.regions.len()
    }

    /// The free region at position `k` of the list; position 0 is its head.
    pub fn region_at(&self, k: usize) -> (region: ListNode)
        requires
            k < self@.free.len(),
        ensures
            region@ == self@.free[k as int],
    {
        self.regions[self.regions.len() - 1 - k]
    }
}

impl Locked<LinkListAllocator> {
    /// Takes the lock and asks the allocator behind it for `size` bytes at a
    /// multiple of `align`. The answer is that of the allocator in the state
    /// that the lock holds when it is taken: the address that the strategy
    /// grants there, or the failure where it grants none. Whatever that
    /// state, a granted address is a multiple of `align` and can carry the
    /// record of a free region, and the bytes of the adjusted request end in
    /// the address space.
    pub fn allocate(&self, size: usize, align: usize) -> (granted: Result<usize, AllocError>)
        requires
            is_pow2(align as int),
        ensures
            exists|state: LinkListState| #[trigger]
                state.representable() && answers(state, size as int, align as int, granted),
            granted matches Ok(addr) ==> {
                &&& is_aligned(addr as int, align as int)
                &&& is_aligned(addr as int, NODE_ALIGN as int)
                &&& addr + size <= addr + adjusted_size(size as int, align as int) <= usize::MAX
            },
            adjusted_size(size as int, align as int) > usize::MAX ==> granted is Err,
    {
        proof {
            lemma_adjusted(size as int, align as int);
        }
        let mut guard = self.lock();
        let list = guarded(&mut guard);
        let ghost held = list@;
        let granted = list.allocate(size, align);
        assert(held.representable() && answers(held, size as int, align as int, granted));
        granted
    }

    /// Takes the lock and assigns the window to the allocator behind it. The
    /// answer is that of the allocator in the state that the lock holds when
    /// it is taken: the window is assigned exactly where the allocator has
    /// none and can hold the window as one free region. A window that cannot
    /// be held so is refused whatever that state.
    pub fn init(&self, heap_start: usize, heap_size: usize) -> (assigned: Result<
        (),
        InvariantViolation,
    >)
        ensures
            exists|state: LinkListState| #[trigger]
                state.representable() && state.takes_window(
                    heap_start as int,
                    heap_size as int,
                    assigned,
                ),
            !window_valid(heap_start as int, heap_size as int) ==> assigned is Err,
    {
        let mut guard = self.lock();
        let list = guarded(&mut guard);
        let ghost held = list@;
        proof {
            use_type_invariant(&*list);
        }
        let assigned = list.try_init(heap_start, heap_size);
        assert(held.representable() && held.takes_window(
            heap_start as int,
            heap_size as int,
            assigned,
        ));
        assigned
    }

    /// Takes the lock and gives a grant back to the allocator behind it. The
    /// answer is that of the allocator in the state that the lock holds when
    /// it is taken: the grant is taken back exactly where the bytes of the
    /// adjusted request lie in the window and can carry the record of a free
    /// region. An address that cannot carry the record is refused whatever
    /// that state.
    pub fn deallocate(&self, ptr: usize, size: usize, align: usize) -> (released: Result<
        (),
        InvariantViolation,
    >)
        requires
            is_pow2(align as int),
        ensures
            exists|state: LinkListState| #[trigger]
                state.representable() && accepts(
                    state,
                    ptr as int,
                    size as int,
                    align as int,
                    released,
                ),
            !is_aligned(ptr as int, NODE_ALIGN as int) ==> released is Err,
            ptr + adjusted_size(size as int, align as int) > usize::MAX ==> released is Err,
    {
        let mut guard = self.lock();
        let list = guarded(&mut guard);
        let ghost held = list@;
        proof {
            use_type_invariant(&*list);
        }
        let released = list.try_deallocate(ptr, size, align);
        assert(held.representable() && accepts(
            held,
            ptr as int,
            size as int,
            align as int,
            released,
        ));
        released
    }
}

/// A region that was just given back serves the next request that it can
/// host: the request is placed in it, and nothing else of the list is
/// touched. This holds without any joining of neighbouring regions.
pub proof fn lemma_freed_region_is_reused(
    state: LinkListState,
    addr: int,
    size: int,
    align: int,
    next_size: int,
    next_align: int,
)
    requires
        state.wf(),
        0 <= size,
        is_pow2(align),
        0 <= next_size,
        is_pow2(next_align),
        state.releasable(addr, size, align),
        (Region { start: addr, size: adjusted_size(size, align) }).hosts(
            adjusted_size(next_size, next_align),
            adjusted_align(next_align),
        ),
    ensures
        ({
            let freed = state.deallocated(addr, size, align);
            let (after, got) = freed.allocated(next_size, next_align);
            let rest = adjusted_size(size, align) - (got.unwrap() - addr) - adjusted_size(
                next_size,
                next_align,
            );
            &&& got == Some(align_up_spec(addr, adjusted_align(next_align)))
            &&& addr <= got.unwrap()
            &&& got.unwrap() + adjusted_size(next_size, next_align) <= addr + adjusted_size(
                size,
                align,
            )
            &&& rest == 0 ==> after.free == state.free
            &&& rest > 0 ==> after.free == seq![
                Region {
                    start: got.unwrap() + adjusted_size(next_size, next_align),
                    size: rest,
                },
            ] + state.free
        }),
{
    let a = adjusted_align(next_align);
    lemma_adjusted(next_size, next_align);
    lemma_small_powers(a);
    lemma_align_up_is_least_multiple(addr, a);
}

} // verus!
