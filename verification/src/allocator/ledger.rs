//! What it means for an allocation strategy to be sound, stated once for all
//! strategies: a ledger of the requests that are granted and not yet given
//! back, the properties the ledger must have, and the proof that every
//! sequence of requests keeps them.

use vstd::arithmetic::power2::is_pow2;
use vstd::prelude::*;

use crate::allocator::{is_aligned, AllocError, InvariantViolation};

verus! {

/// A request that was granted: the address handed out, what was asked for,
/// and the number of bytes from the address on that were set aside for it.
pub struct Grant {
    pub addr: int,
    pub size: int,
    pub align: int,
    pub reserved: int,
}

/// A request made of an allocator.
pub enum Request {
    /// Ask for `size` bytes at a multiple of `align`.
    Allocate { size: int, align: int },
    /// Give back the grant at position `slot` of the ledger.
    Deallocate { slot: int },
}

/// The mathematical state of an allocation strategy and its two transitions.
pub trait HeapModel: Sized {
    /// The validity that the strategy's operations establish and keep.
    spec fn wf(self) -> bool;

    /// First address of the window that the strategy manages.
    spec fn heap_start(self) -> int;

    /// First address past the window that the strategy manages.
    spec fn heap_end(self) -> int;

    /// Number of bytes, from the granted address on, that the strategy sets
    /// aside for a request.
    spec fn reserved(size: int, align: int) -> int;

    /// The state after a request for `size` bytes at a multiple of `align`,
    /// and the address granted, if any.
    spec fn allocated(self, size: int, align: int) -> (Self, Option<int>);

    /// Whether the strategy accepts back the address `addr`, granted to a
    /// request for `size` bytes at a multiple of `align`.
    spec fn releasable(self, addr: int, size: int, align: int) -> bool;

    /// The state after `addr` is given back, granted to a request for `size`
    /// bytes at a multiple of `align`.
    spec fn deallocated(self, addr: int, size: int, align: int) -> Self;

    /// Whether the state agrees with `live`, the grants not yet given back:
    /// what the strategy holds as free is apart from every one of them.
    spec fn accounts_for(self, live: Seq<Grant>) -> bool;

    /// A request leaves the window in place and the state valid, and a grant
    /// joins the ledger without disturbing the agreement.
    proof fn lemma_allocated(self, live: Seq<Grant>, size: int, align: int)
        requires
            self.wf(),
            self.accounts_for(live),
            0 <= size,
            is_pow2(align),
        ensures
            self.allocated(size, align).0.wf(),
            self.allocated(size, align).0.heap_start() == self.heap_start(),
            self.allocated(size, align).0.heap_end() == self.heap_end(),
            self.allocated(size, align).0.accounts_for(
                record(
                    live,
                    self.allocated(size, align).1,
                    size,
                    align,
                    Self::reserved(size, align),
                ),
            ),
    ;

    /// Every grant of the ledger may be given back, and giving it back leaves
    /// the window in place, the state valid and in agreement with the rest.
    proof fn lemma_deallocated(self, live: Seq<Grant>, slot: int)
        requires
            self.wf(),
            self.accounts_for(live),
            0 <= slot < live.len(),
        ensures
            self.releasable(live[slot].addr, live[slot].size, live[slot].align),
            ({
                let g = live[slot];
                let next = self.deallocated(g.addr, g.size, g.align);
                &&& next.wf()
                &&& next.heap_start() == self.heap_start()
                &&& next.heap_end() == self.heap_end()
                &&& next.accounts_for(live.remove(slot))
            }),
    ;

    /// A ledger that the state agrees with is sound.
    proof fn lemma_ledger_sound(self, live: Seq<Grant>)
        requires
            self.wf(),
            self.accounts_for(live),
        ensures
            ledger_sound(live, self.heap_start(), self.heap_end()),
    ;
}

/// Whether `granted` is what a strategy in `state` answers to a request for
/// `size` bytes at a multiple of `align`: the address that it grants, or the
/// failure where it grants none.
pub open spec fn answers<M: HeapModel>(
    state: M,
    size: int,
    align: int,
    granted: Result<usize, AllocError>,
) -> bool {
    match granted {
        Ok(addr) => state.allocated(size, align).1 == Some(addr as int),
        Err(e) => e == AllocError::OutOfMemory && state.allocated(size, align).1.is_none(),
    }
}

/// Whether `released` is what a strategy in `state` answers when `addr`
/// comes back, granted to a request for `size` bytes at a multiple of
/// `align`: it takes the address exactly where it accepts it.
pub open spec fn accepts<M: HeapModel>(
    state: M,
    addr: int,
    size: int,
    align: int,
    released: Result<(), InvariantViolation>,
) -> bool {
    released is Ok <==> state.releasable(addr, size, align)
}

/// The state after `grant` is given back.
pub open spec fn released<M: HeapModel>(state: M, grant: Grant) -> M {
    state.deallocated(grant.addr, grant.size, grant.align)
}

/// The ledger after a request: one entry longer if an address was granted.
pub open spec fn record(
    live: Seq<Grant>,
    got: Option<int>,
    size: int,
    align: int,
    reserved: int,
) -> Seq<Grant> {
    match got {
        Some(addr) => live.push(Grant { addr, size, align, reserved }),
        None => live,
    }
}

/// The bytes set aside for `a` and for `b` do not meet.
pub open spec fn apart(a: Grant, b: Grant) -> bool {
    a.addr + a.reserved <= b.addr || b.addr + b.reserved <= a.addr
}

/// The grant lies at a multiple of its alignment, the bytes set aside for it
/// cover what was asked for, and they lie in the window.
pub open spec fn grant_in_window(g: Grant, heap_start: int, heap_end: int) -> bool {
    &&& is_aligned(g.addr, g.align)
    &&& 0 <= g.size <= g.reserved
    &&& heap_start <= g.addr
    &&& g.addr + g.reserved <= heap_end
}

/// Every grant lies in the window at a multiple of its alignment, and no two
/// grants share a byte.
pub open spec fn ledger_sound(live: Seq<Grant>, heap_start: int, heap_end: int) -> bool {
    &&& forall|i: int|
        0 <= i < live.len() ==> grant_in_window(#[trigger] live[i], heap_start, heap_end)
    &&& forall|i: int, j: int|
        0 <= i < j < live.len() ==> apart(#[trigger] live[i], #[trigger] live[j])
}

/// Whether a request can be made at all: a size is not negative and an
/// alignment is a power of two.
pub open spec fn request_valid(req: Request) -> bool {
    match req {
        Request::Allocate { size, align } => 0 <= size && is_pow2(align),
        Request::Deallocate { slot } => true,
    }
}

/// State and ledger after one request. A `Deallocate` that names no entry of
/// the ledger changes nothing.
pub open spec fn step<M: HeapModel>(state: M, live: Seq<Grant>, req: Request) -> (M, Seq<Grant>) {
    match req {
        Request::Allocate { size, align } => {
            let (next, got) = state.allocated(size, align);
            (next, record(live, got, size, align, M::reserved(size, align)))
        },
        Request::Deallocate { slot } => {
            if 0 <= slot < live.len() {
                (released(state, live[slot]), live.remove(slot))
            } else {
                (state, live)
            }
        },
    }
}

/// State and ledger after the requests of `reqs`, made in order.
pub open spec fn run<M: HeapModel>(state: M, live: Seq<Grant>, reqs: Seq<Request>) -> (
    M,
    Seq<Grant>,
)
    decreases reqs.len(),
{
    if reqs.len() == 0 {
        (state, live)
    } else {
        let (before, ledger) = run(state, live, reqs.drop_last());
        step(before, ledger, reqs.last())
    }
}

/// Whatever the order in which requests are granted and grants given back,
/// the grants that are live lie in the window, each at a multiple of its
/// alignment, and no two of them overlap.
pub proof fn lemma_live_grants_never_overlap<M: HeapModel>(
    state: M,
    live: Seq<Grant>,
    reqs: Seq<Request>,
)
    requires
        state.wf(),
        state.accounts_for(live),
        forall|i: int| 0 <= i < reqs.len() ==> request_valid(#[trigger] reqs[i]),
    ensures
        run(state, live, reqs).0.wf(),
        run(state, live, reqs).0.heap_start() == state.heap_start(),
        run(state, live, reqs).0.heap_end() == state.heap_end(),
        run(state, live, reqs).0.accounts_for(run(state, live, reqs).1),
        ledger_sound(run(state, live, reqs).1, state.heap_start(), state.heap_end()),
    decreases reqs.len(),
{
    if reqs.len() == 0 {
        state.lemma_ledger_sound(live);
    } else {
        lemma_live_grants_never_overlap(state, live, reqs.drop_last());
        let (before, ledger) = run(state, live, reqs.drop_last());
        match reqs.last() {
            Request::Allocate { size, align } => {
                before.lemma_allocated(ledger, size, align);
            },
            Request::Deallocate { slot } => {
                if 0 <= slot < ledger.len() {
                    before.lemma_deallocated(ledger, slot);
                }
            },
        }
        let (after, ledger_after) = run(state, live, reqs);
        after.lemma_ledger_sound(ledger_after);
    }
}

} // verus!
