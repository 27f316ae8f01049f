//! The bump strategy: a cursor that only moves forward, and a count of the
//! grants that are live. Memory comes back all at once, when the count
//! returns to zero.

use vstd::arithmetic::power2::is_pow2;
use vstd::prelude::*;

use crate::allocator::ledger::{accepts, answers, apart, grant_in_window, Grant, HeapModel};
use crate::allocator::{
    align_up_spec, checked_align_up, guarded, is_aligned, lemma_align_up_is_least_multiple,
    AllocError, InvariantViolation, Locked,
};

verus! {

/// The state of the bump strategy.
pub struct BumpState {
    /// First address of the window.
    pub heap_start: int,
    /// First address past the window.
    pub heap_end: int,
    /// Where the next grant starts, before alignment.
    pub cursor: int,
    /// Number of grants that were not given back.
    pub live_count: int,
}

impl BumpState {
    /// The state before a window is assigned.
    pub open spec fn unassigned() -> BumpState {
        BumpState { heap_start: 0, heap_end: 0, cursor: 0, live_count: 0 }
    }

    /// The state over the window of `heap_size` bytes from `heap_start`, with
    /// nothing granted.
    pub open spec fn over(heap_start: int, heap_size: int) -> BumpState {
        BumpState {
            heap_start,
            heap_end: heap_start + heap_size,
            cursor: heap_start,
            live_count: 0,
        }
    }

    /// Whether an allocator can hold the state: it is valid, and its window
    /// and its count of live grants lie in what the machine can count.
    pub open spec fn representable(self) -> bool {
        &&& self.wf()
        &&& self.heap_end <= usize::MAX
        &&& self.live_count <= usize::MAX
    }

    /// Whether `granted` is what an allocator in this state answers to a
    /// request for `size` bytes at a multiple of `align`: what the strategy
    /// answers while the count of live grants can grow, and the failure
    /// where the count is at its limit.
    pub open spec fn answers_within_count(
        self,
        size: int,
        align: int,
        granted: Result<usize, AllocError>,
    ) -> bool {
        if self.live_count < usize::MAX {
            answers(self, size, align, granted)
        } else {
            granted == Err::<usize, AllocError>(AllocError::OutOfMemory)
        }
    }

    /// Whether `assigned` is what an allocator in this state answers when it
    /// is given the window of `heap_size` bytes from `heap_start`: it takes
    /// the window exactly where it has none and the window lies in the
    /// address space.
    pub open spec fn takes_window(
        self,
        heap_start: int,
        heap_size: int,
        assigned: Result<(), InvariantViolation>,
    ) -> bool {
        assigned is Ok <==> self == BumpState::unassigned() && heap_start + heap_size
            <= usize::MAX
    }

    /// Where a request aligned to `align` would be placed.
    pub open spec fn placement(self, align: int) -> int {
        align_up_spec(self.cursor, align)
    }

    /// Whether a request for `size` bytes at a multiple of `align` ends
    /// inside the window.
    pub open spec fn fits(self, size: int, align: int) -> bool {
        self.placement(align) + size <= self.heap_end
    }
}

impl HeapModel for BumpState {
    open spec fn wf(self) -> bool {
        &&& 0 <= self.heap_start <= self.cursor <= self.heap_end
        &&& 0 <= self.live_count
    }

    open spec fn heap_start(self) -> int {
        self.heap_start
    }

    open spec fn heap_end(self) -> int {
        self.heap_end
    }

    open spec fn reserved(size: int, align: int) -> int {
        size
    }

    open spec fn allocated(self, size: int, align: int) -> (Self, Option<int>) {
        if self.fits(size, align) {
            (
                BumpState {
                    cursor: self.placement(align) + size,
                    live_count: self.live_count + 1,
                    ..self
                },
                Some(self.placement(align)),
            )
        } else {
            (self, None)
        }
    }

    open spec fn releasable(self, addr: int, size: int, align: int) -> bool {
        self.live_count > 0
    }

    open spec fn deallocated(self, addr: int, size: int, align: int) -> Self {
        if self.live_count == 1 {
            BumpState { cursor: self.heap_start, live_count: 0, ..self }
        } else {
            BumpState { live_count: self.live_count - 1, ..self }
        }
    }

    open spec fn accounts_for(self, live: Seq<Grant>) -> bool {
        &&& live.len() == self.live_count
        &&& forall|i: int|
            0 <= i < live.len() ==> {
                &&& grant_in_window(#[trigger] live[i], self.heap_start, self.cursor)
                &&& live[i].reserved == live[i].size
            }
        &&& forall|i: int, j: int|
            0 <= i < j < live.len() ==> apart(#[trigger] live[i], #[trigger] live[j])
    }

    proof fn lemma_allocated(self, live: Seq<Grant>, size: int, align: int) {
        assert(align > 0) by {
            reveal(is_pow2);
        }
        lemma_align_up_is_least_multiple(self.cursor, align);
    }

    proof fn lemma_deallocated(self, live: Seq<Grant>, slot: int) {
    }

    proof fn lemma_ledger_sound(self, live: Seq<Grant>) {
    }
}

/// A window with nothing granted is a valid state, and it agrees with the
/// empty ledger.
pub proof fn lemma_over_accounts_for_nothing(heap_start: int, heap_size: int)
    requires
        0 <= heap_start,
        0 <= heap_size,
    ensures
        BumpState::over(heap_start, heap_size).wf(),
        BumpState::over(heap_start, heap_size).accounts_for(Seq::empty()),
{
}

/// An allocator that places each grant behind the one before.
pub struct BumpAllocator {
    heap_start: usize,
    heap_end: usize,
    next: usize,
    allocations: usize,
}

impl View for BumpAllocator {
    type V = BumpState;

    closed spec fn view(&self) -> BumpState {
        BumpState {
            heap_start: self.heap_start as int,
            heap_end: self.heap_end as int,
            cursor: self.next as int,
            live_count: self.allocations as int,
        }
    }
}

impl BumpAllocator {
    /// Every value of the type has a valid state.
    #[verifier::type_invariant]
    pub open spec fn inv(self) -> bool {
        self@.wf()
    }

    /// Creates an allocator that has no window yet: every request fails.
    pub fn new() -> (bump: Self)
        ensures
            bump@ == BumpState::unassigned(),
            bump@.wf(),
    {
        BumpAllocator { heap_start: 0, heap_end: 0, next: 0, allocations: 0 }
    }

    /// Assigns the window of `heap_size` bytes from `heap_start`. The window
    /// is assigned once: an allocator that has one does not take another.
    pub fn init(&mut self, heap_start: usize, heap_size: usize)
        requires
            old(self)@ == BumpState::unassigned(),
            heap_start + heap_size <= usize::MAX,
        ensures
            final(self)@ == BumpState::over(heap_start as int, heap_size as int),
            final(self)@.wf(),
    {
        *self = BumpAllocator {
            heap_start,
            heap_end: heap_start + heap_size,
            next: heap_start,
            allocations: 0,
        };
    }

    /// Assigns the window like `init` where the allocator has none and the
    /// window lies in the address space. Refuses, and changes nothing,
    /// where the allocator has a window already or the window does not.
    pub fn try_init(&mut self, heap_start: usize, heap_size: usize) -> (assigned: Result<
        (),
        InvariantViolation,
    >)
        ensures
            final(self)@.wf(),
            match assigned {
                Ok(_) => {
                    &&& old(self)@ == BumpState::unassigned()
                    &&& heap_start + heap_size <= usize::MAX
                    &&& final(self)@ == BumpState::over(heap_start as int, heap_size as int)
                },
                Err(_) => {
                    &&& !(old(self)@ == BumpState::unassigned() && heap_start + heap_size
                        <= usize::MAX)
                    &&& final(self)@ == old(self)@
                },
            },
    {
        proof {
            use_type_invariant(&*self);
        }
        if self.is_unassigned() && heap_start.checked_add(heap_size).is_some() {
            self.init(heap_start, heap_size);
            Ok(())
        } else {
            Err(InvariantViolation)
        }
    }

    /// Grants `size` bytes at the first multiple of `align` from the cursor
    /// on, and moves the cursor past them. Fails, and changes nothing, where
    /// the grant would end beyond the window, however far beyond.
    pub fn allocate(&mut self, size: usize, align: usize) -> (granted: Result<usize, AllocError>)
        requires
            is_pow2(align as int),
            old(self)@.live_count < usize::MAX,
        ensures
            old(self)@.wf(),
            final(self)@.wf(),
            final(self)@ == old(self)@.allocated(size as int, align as int).0,
            match granted {
                Ok(addr) => old(self)@.allocated(size as int, align as int).1 == Some(addr as int),
                Err(e) => e == AllocError::OutOfMemory && old(self)@.allocated(
                    size as int,
                    align as int,
                ).1.is_none(),
            },
            granted matches Ok(addr) ==> {
                &&& is_aligned(addr as int, align as int)
                &&& old(self)@.heap_start <= addr
                &&& addr + size <= old(self)@.heap_end
                &&& size > 0 ==> addr < old(self)@.heap_end
            },
            align_up_spec(old(self)@.cursor, align as int) + size > usize::MAX ==> granted == Err::<
                usize,
                AllocError,
            >(AllocError::OutOfMemory),
    {
        proof {
            use_type_invariant(&*self);
            assert(align > 0) by {
                reveal(is_pow2);
            }
            lemma_align_up_is_least_multiple(self.next as int, align as int);
        }
        let alloc_start = match checked_align_up(self.next, align) {
            Some(start) => start,
            None => {
                return Err(AllocError::OutOfMemory);
            },
        };
        let alloc_end = match alloc_start.checked_add(size) {
            Some(end) => end,
            None => {
                return Err(AllocError::OutOfMemory);
            },
        };
        if alloc_end > self.heap_end {
            Err(AllocError::OutOfMemory)
        } else {
            *self = BumpAllocator {
                heap_start: self.heap_start,
                heap_end: self.heap_end,
                next: alloc_end,
                allocations: self.allocations + 1,
            };
            Ok(alloc_start)
        }
    }

    /// Takes back one grant. The strategy keeps no record of single grants:
    /// it counts them, and when none is left the cursor returns to the start
    /// of the window.
    pub fn deallocate(&mut self, ptr: usize, size: usize, align: usize)
        requires
            old(self)@.releasable(ptr as int, size as int, align as int),
        ensures
            final(self)@.wf(),
            final(self)@ == old(self)@.deallocated(ptr as int, size as int, align as int),
    {
        proof {
            use_type_invariant(&*self);
        }
        let remaining: usize = self.allocations - 1;
        *self = BumpAllocator {
            heap_start: self.heap_start,
            heap_end: self.heap_end,
            next: if remaining == 0 {
                self.heap_start
            } else {
                self.next
            },
            allocations: remaining,
        };
    }

    /// Grants like `allocate` where the count of live grants can still grow.
    /// Fails, and changes nothing, where `allocate` would, and where the
    /// count of live grants is at its limit.
    pub fn try_allocate(&mut self, size: usize, align: usize) -> (granted: Result<
        usize,
        AllocError,
    >)
        requires
            is_pow2(align as int),
        ensures
            final(self)@.wf(),
            match granted {
                Ok(addr) => {
                    &&& old(self)@.live_count < usize::MAX
                    &&& old(self)@.allocated(size as int, align as int) == (
                        final(self)@,
                        Some(addr as int),
                    )
                    &&& is_aligned(addr as int, align as int)
                    &&& addr + size <= old(self)@.heap_end <= usize::MAX
                },
                Err(e) => {
                    &&& e == AllocError::OutOfMemory
                    &&& old(self)@.live_count == usize::MAX || old(self)@.allocated(
                        size as int,
                        align as int,
                    ).1.is_none()
                    &&& final(self)@ == old(self)@
                },
            },
    {
        if self.allocations == usize::MAX {
            proof {
                use_type_invariant(&*self);
            }
            Err(AllocError::OutOfMemory)
        } else {
            self.allocate(size, align)
        }
    }

    /// Takes back a grant like `deallocate` where one is live. Refuses, and
    /// changes nothing, where none is.
    pub fn try_deallocate(&mut self, ptr: usize, size: usize, align: usize) -> (released: Result<
        (),
        InvariantViolation,
    >)
        ensures
            final(self)@.wf(),
            match released {
                Ok(_) => {
                    &&& old(self)@.releasable(ptr as int, size as int, align as int)
                    &&& final(self)@ == old(self)@.deallocated(
                        ptr as int,
                        size as int,
                        align as int,
                    )
                },
                Err(_) => {
                    &&& !old(self)@.releasable(ptr as int, size as int, align as int)
                    &&& final(self)@ == old(self)@
                },
            },
    {
        if self.can_deallocate(ptr, size, align) {
            self.deallocate(ptr, size, align);
            Ok(())
        } else {
            proof {
                use_type_invariant(&*self);
            }
            Err(InvariantViolation)
        }
    }

    /// Whether a grant can be taken back: one is live.
    pub fn can_deallocate(&self, ptr: usize, size: usize, align: usize) -> (ok: bool)
        ensures
            ok == self@.releasable(ptr as int, size as int, align as int),
    {
        self.allocations > 0
    }

    /// Whether the allocator has no window yet.
    pub fn is_unassigned(&self) -> (unassigned: bool)
        ensures
            unassigned == (self@ == BumpState::unassigned()),
    {
        self.heap_start == 0 && self.heap_end == 0 && self.next == 0 && self.allocations == 0
    }

    /// First address of the window.
    pub fn heap_start(&self) -> (addr: usize)
        ensures
            addr == self@.heap_start,
    {
        self.heap_start
    }

    /// First address past the window.
    pub fn heap_end(&self) -> (addr: usize)
        ensures
            addr == self@.heap_end,
    {
        self.heap_end
    }

    /// Where the next grant starts, before alignment.
    pub fn cursor(&self) -> (addr: usize)
        ensures
            addr == self@.cursor,
    {
        self.next
    }

    /// Number of grants that were not given back.
    pub fn live_count(&self) -> (count: usize)
        ensures
            count == self@.live_count,
    {
        self.allocations
    }
}

impl Locked<BumpAllocator> {
    /// Takes the lock and asks the allocator behind it for `size` bytes at a
    /// multiple of `align`. The answer is that of the allocator in the state
    /// that the lock holds when it is taken: the address that the strategy
    /// grants there, or the failure where it grants none or where the count
    /// of live grants is at its limit. Whatever that state, a granted
    /// address is a multiple of `align`, and the bytes granted end in the
    /// address space.
    pub fn allocate(&self, size: usize, align: usize) -> (granted: Result<usize, AllocError>)
        requires
            is_pow2(align as int),
        ensures
            exists|state: BumpState| #[trigger]
                state.representable() && state.answers_within_count(
                    size as int,
                    align as int,
                    granted,
                ),
            granted matches Ok(addr) ==> is_aligned(addr as int, align as int) && addr + size
                <= usize::MAX,
    {
        let mut guard = self.lock();
        let bump = guarded(&mut guard);
        let ghost held = bump@;
        proof {
            use_type_invariant(&*bump);
        }
        let granted = bump.try_allocate(size, align);
        assert(held.representable() && held.answers_within_count(
            size as int,
            align as int,
            granted,
        ));
        granted
    }

    /// Takes the lock and assigns the window to the allocator behind it. The
    /// answer is that of the allocator in the state that the lock holds when
    /// it is taken: the window is assigned exactly where the allocator has
    /// none and the window lies in the address space. A window beyond the
    /// address space is refused whatever that state.
    pub fn init(&self, heap_start: usize, heap_size: usize) -> (assigned: Result<
        (),
        InvariantViolation,
    >)
        ensures
            exists|state: BumpState| #[trigger]
                state.representable() && state.takes_window(
                    heap_start as int,
                    heap_size as int,
                    assigned,
                ),
            heap_start + heap_size > usize::MAX ==> assigned is Err,
    {
        let mut guard = self.lock();
        let bump = guarded(&mut guard);
        let ghost held = bump@;
        proof {
            use_type_invariant(&*bump);
        }
        let assigned = bump.try_init(heap_start, heap_size);
        assert(held.representable() && held.takes_window(
            heap_start as int,
            heap_size as int,
            assigned,
        ));
        assigned
    }

    /// Takes the lock and gives a grant back to the allocator behind it. The
    /// answer is that of the allocator in the state that the lock holds when
    /// it is taken: the grant is taken back exactly where one is live.
    pub fn deallocate(&self, ptr: usize, size: usize, align: usize) -> (released: Result<
        (),
        InvariantViolation,
    >)
        ensures
            exists|state: BumpState| #[trigger]
                state.representable() && accepts(
                    state,
                    ptr as int,
                    size as int,
                    align as int,
                    released,
                ),
    {
        let mut guard = self.lock();
        let bump = guarded(&mut guard);
        let ghost held = bump@;
        proof {
            use_type_invariant(&*bump);
        }
        let released = bump.try_deallocate(ptr, size, align);
        assert(held.representable() && accepts(
            held,
            ptr as int,
            size as int,
            align as int,
            released,
        ));
        released
    }
}

/// A request: so many bytes at a multiple of an alignment.
pub struct Ask {
    pub size: int,
    pub align: int,
}

/// Sum of the sizes of `reqs`.
pub open spec fn total_size(reqs: Seq<Ask>) -> int
    decreases reqs.len(),
{
    if reqs.len() == 0 {
        0
    } else {
        total_size(reqs.drop_last()) + reqs.last().size
    }
}

/// The state after the requests of `reqs` are made in order.
pub open spec fn after_requests(state: BumpState, reqs: Seq<Ask>) -> BumpState
    decreases reqs.len(),
{
    if reqs.len() == 0 {
        state
    } else {
        after_requests(state, reqs.drop_last()).allocated(reqs.last().size, reqs.last().align).0
    }
}

/// The state after `count` grants are given back.
pub open spec fn after_releases(state: BumpState, count: nat) -> BumpState
    decreases count,
{
    if count == 0 {
        state
    } else {
        after_releases(state, (count - 1) as nat).deallocated(0, 0, 1)
    }
}

/// Whether the requests of `reqs`, placed one behind the other from `from`
/// on, need no padding: each starts at a multiple of its alignment.
pub open spec fn unpadded(from: int, reqs: Seq<Ask>) -> bool {
    forall|i: int|
        0 <= i < reqs.len() ==> is_aligned(from + total_size(#[trigger] reqs.take(i)), reqs[i].align)
}

/// Requests that need no padding and end inside the window are all granted,
/// one behind the other: the cursor advances by the sum of their sizes and
/// the count of live grants by their number.
pub proof fn lemma_unpadded_requests_granted(state: BumpState, reqs: Seq<Ask>)
    requires
        state.wf(),
        forall|i: int| 0 <= i < reqs.len() ==> 0 <= (#[trigger] reqs[i]).size && is_pow2(reqs[i].align),
        unpadded(state.cursor, reqs),
        state.cursor + total_size(reqs) <= state.heap_end,
    ensures
        after_requests(state, reqs) == (BumpState {
            cursor: state.cursor + total_size(reqs),
            live_count: state.live_count + reqs.len(),
            ..state
        }),
        0 <= total_size(reqs),
    decreases reqs.len(),
{
    if reqs.len() > 0 {
        let front = reqs.drop_last();
        assert forall|i: int| 0 <= i < front.len() implies is_aligned(
            state.cursor + total_size(#[trigger] front.take(i)),
            front[i].align,
        ) by {
            assert(front.take(i) =~= reqs.take(i));
            assert(front[i] == reqs[i]);
        }
        lemma_unpadded_requests_granted(state, front);
    }
}

/// Giving back as many grants as are live returns the cursor to the start
/// of the window.
pub proof fn lemma_all_released_resets(state: BumpState, count: nat)
    requires
        state.wf(),
        state.live_count == count,
    ensures
        count > 0 ==> after_releases(state, count) == (BumpState {
            cursor: state.heap_start,
            live_count: 0,
            ..state
        }),
        count == 0 ==> after_releases(state, count) == state,
{
    lemma_some_released(state, count);
}

/// Giving back `count` of the live grants lowers their count by `count`,
/// and leaves the cursor in place as long as one is live.
proof fn lemma_some_released(state: BumpState, count: nat)
    requires
        state.wf(),
        count <= state.live_count,
    ensures
        after_releases(state, count).live_count == state.live_count - count,
        after_releases(state, count).heap_start == state.heap_start,
        after_releases(state, count).heap_end == state.heap_end,
        after_releases(state, count).cursor == if count > 0 && state.live_count == count {
            state.heap_start
        } else {
            state.cursor
        },
    decreases count,
{
    if count > 0 {
        lemma_some_released(state, (count - 1) as nat);
    }
}

/// Exhaustion and reset. In a window of `H` bytes with nothing granted,
/// requests that need no padding and whose sizes sum to exactly `H` are all
/// granted. Then no request of a positive size is granted. After all the
/// grants are given back the cursor is at the start of the window again,
/// and one request for `H` bytes is granted there.
pub proof fn lemma_exhaustion_and_reset(state: BumpState, reqs: Seq<Ask>, size: int, align: int)
    requires
        state.wf(),
        state.cursor == state.heap_start,
        state.live_count == 0,
        forall|i: int| 0 <= i < reqs.len() ==> 0 <= (#[trigger] reqs[i]).size && is_pow2(reqs[i].align),
        unpadded(state.heap_start, reqs),
        total_size(reqs) == state.heap_end - state.heap_start,
        0 < size,
        is_pow2(align),
    ensures
        ({
            let full = after_requests(state, reqs);
            let drained = after_releases(full, reqs.len());
            &&& full.live_count == reqs.len()
            &&& full.cursor == state.heap_end
            &&& full.allocated(size, align) == (full, None::<int>)
            &&& drained.cursor == state.heap_start
            &&& drained.live_count == 0
            &&& is_aligned(state.heap_start, align) ==> drained.allocated(
                state.heap_end - state.heap_start,
                align,
            ).1 == Some(state.heap_start)
        }),
{
    lemma_unpadded_requests_granted(state, reqs);
    let full = after_requests(state, reqs);
    assert(align > 0) by {
        reveal(is_pow2);
    }
    lemma_align_up_is_least_multiple(full.cursor, align);
    lemma_all_released_resets(full, reqs.len());
}

} // verus!
