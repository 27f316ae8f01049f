//! The fixed-size-block strategy: one stack of free blocks for each of nine
//! block sizes, and a free-list allocator behind them. A request that a
//! block size covers is served from that size's stack, or, where the stack
//! is empty, by one fresh block from the free list. A block that comes back
//! stays with its size. Requests that no block size covers go to the free
//! list as they are.

use vstd::arithmetic::power2::is_pow2;
use vstd::prelude::*;

use crate::allocator::ledger::{accepts, answers, apart, grant_in_window, Grant, HeapModel};
use crate::allocator::linked_list::{
    adjusted_align, adjusted_size, carved_origin, extent, first_fit, lemma_adjusted, lemma_carved,
    lemma_first_fit, window_valid, LinkListAllocator, LinkListState, Region, NODE_ALIGN,
    NODE_SIZE,
};
use crate::allocator::{
    guarded, is_aligned, lemma_align_up_is_least_multiple, lemma_aligned_transitive,
    lemma_pow2_divides, lemma_small_powers, AllocError, InvariantViolation, Locked,
};

verus! {

/// The block sizes. Each is a power of two, because a block is aligned to
/// its own size.
pub const BLOCK_SIZES: [usize; 9] = [8, 16, 32, 64, 128, 256, 512, 1024, 2048];

/// Bytes that the link of a free block takes at the start of the block.
pub const BLOCK_NODE_SIZE: usize = 8;

/// Alignment that the link of a free block needs.
pub const BLOCK_NODE_ALIGN: usize = 8;

/// Size, and alignment, of the blocks of class `class`.
pub open spec fn class_size(class: int) -> int {
    BLOCK_SIZES[class] as int
}

/// What a block must cover to serve a request: the larger of the size and
/// the alignment asked for.
pub open spec fn required_block_size(size: int, align: int) -> int {
    if size >= align {
        size
    } else {
        align
    }
}

/// The first class from `class` on whose blocks cover `required` bytes.
pub open spec fn class_from(class: int, required: int) -> Option<int>
    decreases BLOCK_SIZES.len() - class,
{
    if class < 0 || class >= BLOCK_SIZES.len() {
        None
    } else if class_size(class) >= required {
        Some(class)
    } else {
        class_from(class + 1, required)
    }
}

/// The class that serves a request: the one with the smallest blocks that
/// cover the size and the alignment asked for. There is none where the
/// largest blocks are too small.
pub open spec fn class_of(size: int, align: int) -> Option<int> {
    class_from(0, required_block_size(size, align))
}

/// The class of a request has blocks that cover it, and every class below
/// has not. A request has no class only where it needs more than 2048 bytes.
pub proof fn lemma_class_of(size: int, align: int)
    ensures
        match class_of(size, align) {
            Some(class) => {
                &&& 0 <= class < BLOCK_SIZES.len()
                &&& class_size(class) >= required_block_size(size, align)
                &&& forall|below: int|
                    0 <= below < class ==> #[trigger] class_size(below) < required_block_size(
                        size,
                        align,
                    )
            },
            None => required_block_size(size, align) > 2048,
        },
{
    reveal_with_fuel(class_from, 10);
}

/// Every block size is a power of two and a multiple of the alignment of a
/// free region's record.
pub proof fn lemma_class_sizes(class: int)
    requires
        0 <= class < BLOCK_SIZES.len(),
    ensures
        is_pow2(class_size(class)),
        class_size(class) >= NODE_ALIGN,
        is_aligned(class_size(class), NODE_ALIGN as int),
        class_size(class) <= 2048,
{
    reveal_with_fuel(is_pow2, 13);
}

/// The state of the fixed-size-block strategy.
pub struct FixedSizeBlockState {
    /// For each class the addresses of its free blocks. Each list is a
    /// stack: its last entry is the block that was freed last and leaves
    /// first.
    pub lists: Seq<Seq<int>>,
    /// The free list behind the classes.
    pub fallback: LinkListState,
}

impl FixedSizeBlockState {
    /// The state before a window is assigned.
    pub open spec fn unassigned() -> FixedSizeBlockState {
        FixedSizeBlockState {
            lists: Seq::new(BLOCK_SIZES.len() as nat, |class: int| Seq::<int>::empty()),
            fallback: LinkListState::unassigned(),
        }
    }

    /// The state over the window of `heap_size` bytes from `heap_start`: no
    /// class has a block yet, and the whole window is with the free list.
    pub open spec fn over(heap_start: int, heap_size: int) -> FixedSizeBlockState {
        FixedSizeBlockState {
            lists: Seq::new(BLOCK_SIZES.len() as nat, |class: int| Seq::<int>::empty()),
            fallback: LinkListState::over(heap_start, heap_size),
        }
    }

    /// Whether an allocator can hold the state: it is valid, and its window
    /// lies in the address space.
    pub open spec fn representable(self) -> bool {
        self.wf() && self.fallback.heap_end <= usize::MAX
    }

    /// Whether `assigned` is what an allocator in this state answers when it
    /// is given the window of `heap_size` bytes from `heap_start`: it takes
    /// the window exactly where it has none and the free list can hold the
    /// window as one free region.
    pub open spec fn takes_window(
        self,
        heap_start: int,
        heap_size: int,
        assigned: Result<(), InvariantViolation>,
    ) -> bool {
        assigned is Ok <==> self == FixedSizeBlockState::unassigned() && window_valid(
            heap_start,
            heap_size,
        )
    }

    /// The bytes of the free block at position `pos` of class `class`.
    pub open spec fn block(self, class: int, pos: int) -> Region {
        Region { start: self.lists[class][pos], size: class_size(class) }
    }

    /// Whether `pos` is a position in the list of class `class`.
    pub open spec fn has_block(self, class: int, pos: int) -> bool {
        0 <= class < self.lists.len() && 0 <= pos < self.lists[class].len()
    }

    /// The state without the block that was freed last in class `class`.
    pub open spec fn popped(self, class: int) -> FixedSizeBlockState {
        FixedSizeBlockState {
            lists: self.lists.update(class, self.lists[class].drop_last()),
            ..self
        }
    }

    /// The state with the block at `addr` freed into class `class`.
    pub open spec fn pushed(self, class: int, addr: int) -> FixedSizeBlockState {
        FixedSizeBlockState { lists: self.lists.update(class, self.lists[class].push(addr)), ..self }
    }

    /// The state after the free list has served a request for `size` bytes
    /// at a multiple of `align`, and the address it granted, if any.
    pub open spec fn fallback_allocated(self, size: int, align: int) -> (
        FixedSizeBlockState,
        Option<int>,
    ) {
        let (fallback, got) = self.fallback.allocated(size, align);
        (FixedSizeBlockState { fallback, ..self }, got)
    }
}

impl HeapModel for FixedSizeBlockState {
    open spec fn wf(self) -> bool {
        &&& self.lists.len() == BLOCK_SIZES.len()
        &&& self.fallback.wf()
        &&& forall|class: int, pos: int| #[trigger]
            self.has_block(class, pos) ==> {
                &&& is_aligned(self.lists[class][pos], class_size(class))
                &&& self.fallback.heap_start <= self.block(class, pos).start
                &&& self.block(class, pos).end() <= self.fallback.heap_end
            }
    }

    open spec fn heap_start(self) -> int {
        self.fallback.heap_start
    }

    open spec fn heap_end(self) -> int {
        self.fallback.heap_end
    }

    open spec fn reserved(size: int, align: int) -> int {
        match class_of(size, align) {
            Some(class) => class_size(class),
            None => adjusted_size(size, align),
        }
    }

    open spec fn allocated(self, size: int, align: int) -> (Self, Option<int>) {
        match class_of(size, align) {
            Some(class) => {
                if self.lists[class].len() > 0 {
                    (self.popped(class), Some(self.lists[class].last()))
                } else {
                    self.fallback_allocated(class_size(class), class_size(class))
                }
            },
            None => self.fallback_allocated(size, align),
        }
    }

    open spec fn releasable(self, addr: int, size: int, align: int) -> bool {
        match class_of(size, align) {
            Some(class) => {
                &&& is_aligned(addr, class_size(class))
                &&& self.fallback.heap_start <= addr
                &&& addr + class_size(class) <= self.fallback.heap_end
            },
            None => self.fallback.releasable(addr, size, align),
        }
    }

    open spec fn deallocated(self, addr: int, size: int, align: int) -> Self {
        match class_of(size, align) {
            Some(class) => self.pushed(class, addr),
            None => FixedSizeBlockState {
                fallback: self.fallback.deallocated(addr, size, align),
                ..self
            },
        }
    }

    open spec fn accounts_for(self, live: Seq<Grant>) -> bool {
        &&& forall|i: int|
            0 <= i < live.len() ==> {
                &&& grant_in_window(
                    #[trigger] live[i],
                    self.fallback.heap_start,
                    self.fallback.heap_end,
                )
                &&& live[i].reserved == Self::reserved(live[i].size, live[i].align)
                &&& self.releasable(live[i].addr, live[i].size, live[i].align)
            }
        &&& forall|i: int, j: int|
            0 <= i < j < live.len() ==> apart(#[trigger] live[i], #[trigger] live[j])
        &&& forall|k: int, i: int|
            0 <= k < self.fallback.free.len() && 0 <= i < live.len() ==> (
            #[trigger] self.fallback.free[k]).apart_from(extent(#[trigger] live[i]))
        &&& forall|k: int, l: int|
            0 <= k < l < self.fallback.free.len() ==> (
            #[trigger] self.fallback.free[k]).apart_from(#[trigger] self.fallback.free[l])
        &&& forall|class: int, pos: int, i: int|
            #[trigger] self.has_block(class, pos) && 0 <= i < live.len() ==> self.block(
                class,
                pos,
            ).apart_from(extent(#[trigger] live[i]))
        &&& forall|class: int, pos: int, k: int|
            #[trigger] self.has_block(class, pos) && 0 <= k < self.fallback.free.len()
                ==> self.block(class, pos).apart_from(#[trigger] self.fallback.free[k])
        &&& forall|class: int, pos: int, other: int, at: int|
            #[trigger] self.has_block(class, pos) && #[trigger] self.has_block(other, at) && (class
                != other || pos != at) ==> self.block(class, pos).apart_from(
                self.block(other, at),
            )
    }

    proof fn lemma_allocated(self, live: Seq<Grant>, size: int, align: int) {
        lemma_class_of(size, align);
        match class_of(size, align) {
            Some(class) => {
                lemma_class_sizes(class);
                lemma_pow2_divides(align, class_size(class));
                lemma_small_powers(align);
                if self.lists[class].len() > 0 {
                    lemma_popped(self, live, size, align, class);
                } else {
                    lemma_fallback_allocated(
                        self,
                        live,
                        size,
                        align,
                        class_size(class),
                        class_size(class),
                    );
                }
            },
            None => {
                lemma_adjusted(size, align);
                lemma_small_powers(align);
                assert(is_aligned(align, align)) by (nonlinear_arith)
                    requires
                        align > 0,
                ;
                lemma_fallback_allocated(self, live, size, align, size, align);
            },
        }
    }

    proof fn lemma_deallocated(self, live: Seq<Grant>, slot: int) {
        let g = live[slot];
        let next = self.deallocated(g.addr, g.size, g.align);
        let rest = live.remove(slot);
        lemma_class_of(g.size, g.align);
        match class_of(g.size, g.align) {
            Some(class) => {
                let fresh = self.lists[class].len() as int;
                assert forall|c: int, pos: int| #[trigger] next.has_block(c, pos) implies {
                    &&& (c != class || pos != fresh) ==> self.has_block(c, pos) && next.block(
                        c,
                        pos,
                    ) == self.block(c, pos)
                    &&& (c == class && pos == fresh) ==> next.block(c, pos) == extent(g)
                } by {}
            },
            None => {
                assert forall|c: int, pos: int| #[trigger] next.has_block(c, pos) implies {
                    &&& is_aligned(next.lists[c][pos], class_size(c))
                    &&& next.fallback.heap_start <= next.block(c, pos).start
                    &&& next.block(c, pos).end() <= next.fallback.heap_end
                } by {
                    assert(self.has_block(c, pos));
                }
                assert forall|c: int, pos: int, i: int| #[trigger]
                    next.has_block(c, pos) && 0 <= i < rest.len() implies next.block(
                    c,
                    pos,
                ).apart_from(extent(#[trigger] rest[i])) by {
                    assert(rest[i] == live[if i < slot { i } else { i + 1 }]);
                    assert(self.has_block(c, pos));
                }
                assert forall|c: int, pos: int, k: int| #[trigger]
                    next.has_block(c, pos) && 0 <= k < next.fallback.free.len() implies next.block(
                    c,
                    pos,
                ).apart_from(#[trigger] next.fallback.free[k]) by {
                    assert(self.has_block(c, pos));
                    if k > 0 {
                        assert(next.fallback.free[k] == self.fallback.free[k - 1]);
                    } else {
                        assert(self.block(c, pos).apart_from(extent(live[slot])));
                    }
                }
                assert forall|c: int, pos: int, other: int, at: int| #[trigger]
                    next.has_block(c, pos) && #[trigger] next.has_block(other, at) && (c != other
                        || pos != at) implies next.block(c, pos).apart_from(
                    next.block(other, at),
                ) by {
                    assert(self.has_block(c, pos));
                    assert(self.has_block(other, at));
                }
            },
        }
    }

    proof fn lemma_ledger_sound(self, live: Seq<Grant>) {
    }
}

/// A window that is all with the free list is a valid state, and it agrees
/// with the empty ledger.
pub proof fn lemma_over_accounts_for_nothing(heap_start: int, heap_size: int)
    requires
        0 <= heap_start,
        is_aligned(heap_start, NODE_ALIGN as int),
        heap_size >= NODE_SIZE,
    ensures
        FixedSizeBlockState::over(heap_start, heap_size).wf(),
        FixedSizeBlockState::over(heap_start, heap_size).accounts_for(Seq::empty()),
{
}

/// Serving a request from the stack of its class keeps the state valid and
/// in agreement with the ledger.
proof fn lemma_popped(
    state: FixedSizeBlockState,
    live: Seq<Grant>,
    size: int,
    align: int,
    class: int,
)
    requires
        state.wf(),
        state.accounts_for(live),
        0 <= size,
        is_pow2(align),
        class_of(size, align) == Some(class),
        0 <= class < BLOCK_SIZES.len(),
        class_size(class) >= required_block_size(size, align),
        is_aligned(class_size(class), align),
        state.lists[class].len() > 0,
    ensures
        state.popped(class).wf(),
        state.popped(class).accounts_for(
            live.push(
                Grant { addr: state.lists[class].last(), size, align, reserved: class_size(class) },
            ),
        ),
{
    let next = state.popped(class);
    let top = state.lists[class].len() - 1;
    let addr = state.lists[class].last();
    assert(state.has_block(class, top));
    lemma_small_powers(align);
    lemma_aligned_transitive(addr, class_size(class), align);
    assert forall|c: int, pos: int| #[trigger] next.has_block(c, pos) implies state.has_block(
        c,
        pos,
    ) && next.block(c, pos) == state.block(c, pos) && (c != class || pos != top) by {}
}

/// Serving a request from the free list keeps the state valid and in
/// agreement with the ledger. The free list is asked for `fb_size` bytes at
/// a multiple of `fb_align`: the request itself where it has no class, a
/// block of its class where it has one.
proof fn lemma_fallback_allocated(
    state: FixedSizeBlockState,
    live: Seq<Grant>,
    size: int,
    align: int,
    fb_size: int,
    fb_align: int,
)
    requires
        state.wf(),
        state.accounts_for(live),
        0 <= size,
        is_pow2(align),
        0 <= fb_size,
        is_pow2(fb_align),
        size <= fb_size,
        is_aligned(fb_align, align),
        match class_of(size, align) {
            Some(class) => fb_size == class_size(class) && fb_align == class_size(class)
                && fb_align >= NODE_ALIGN,
            None => fb_size == size && fb_align == align,
        },
    ensures
        state.fallback_allocated(fb_size, fb_align).0.wf(),
        state.fallback_allocated(fb_size, fb_align).0.fallback.heap_start
            == state.fallback.heap_start,
        state.fallback_allocated(fb_size, fb_align).0.fallback.heap_end == state.fallback.heap_end,
        match state.fallback_allocated(fb_size, fb_align).1 {
            Some(addr) => state.fallback_allocated(fb_size, fb_align).0.accounts_for(
                live.push(
                    Grant {
                        addr,
                        size,
                        align,
                        reserved: FixedSizeBlockState::reserved(size, align),
                    },
                ),
            ),
            None => state.fallback_allocated(fb_size, fb_align).0.accounts_for(live),
        },
{
    let s = adjusted_size(fb_size, fb_align);
    let a = adjusted_align(fb_align);
    let old_free = state.fallback.free;
    lemma_adjusted(fb_size, fb_align);
    lemma_small_powers(a);
    lemma_small_powers(align);
    lemma_first_fit(old_free, s, a);
    match first_fit(old_free, s, a) {
        Some(k) => {
            let (next, got) = state.fallback_allocated(fb_size, fb_align);
            let region = old_free[k];
            let addr = region.placement(a);
            let reserved = FixedSizeBlockState::reserved(size, align);
            let grant = Grant { addr, size, align, reserved };
            let after = live.push(grant);
            lemma_align_up_is_least_multiple(region.start, a);
            lemma_carved(state.fallback, k, s, a);
            lemma_aligned_transitive(addr, fb_align, align);
            assert forall|c: int, pos: int| #[trigger] next.has_block(c, pos) implies {
                &&& is_aligned(next.lists[c][pos], class_size(c))
                &&& next.fallback.heap_start <= next.block(c, pos).start
                &&& next.block(c, pos).end() <= next.fallback.heap_end
            } by {
                assert(state.has_block(c, pos));
            }
            assert forall|c: int, pos: int, i: int| #[trigger]
                next.has_block(c, pos) && 0 <= i < after.len() implies next.block(
                c,
                pos,
            ).apart_from(extent(#[trigger] after[i])) by {
                assert(state.has_block(c, pos));
                if i < live.len() {
                    assert(after[i] == live[i]);
                } else {
                    assert(state.block(c, pos).apart_from(old_free[k]));
                }
            }
            assert forall|c: int, pos: int, m: int| #[trigger]
                next.has_block(c, pos) && 0 <= m < next.fallback.free.len() implies next.block(
                c,
                pos,
            ).apart_from(#[trigger] next.fallback.free[m]) by {
                let n = carved_origin(state.fallback, k, s, a, m);
                assert(state.has_block(c, pos));
                assert(state.block(c, pos).apart_from(old_free[n]));
            }
            assert forall|c: int, pos: int, other: int, at: int| #[trigger]
                next.has_block(c, pos) && #[trigger] next.has_block(other, at) && (c != other
                    || pos != at) implies next.block(c, pos).apart_from(
                next.block(other, at),
            ) by {
                assert(state.has_block(c, pos));
                assert(state.has_block(other, at));
            }
        },
        None => {},
    }
}

/// Chooses the class for a request: the position in `BLOCK_SIZES` of the
/// smallest block size that covers the size and the alignment asked for.
pub fn list_index(size: usize, align: usize) -> (index: Option<usize>)
    ensures
        match index {
            Some(class) => class_of(size as int, align as int) == Some(class as int),
            None => class_of(size as int, align as int).is_none(),
        },
{
    let required = if size >= align {
        size
    } else {
        align
    };
    let mut class: usize = 0;
    while class < BLOCK_SIZES.len()
        invariant
            class <= BLOCK_SIZES.len(),
            required == required_block_size(size as int, align as int),
            class_of(size as int, align as int) == class_from(class as int, required as int),
        decreases BLOCK_SIZES.len() - class,
    {
        if BLOCK_SIZES[class] >= required {
            return Some(class);
        }
        class = class + 1;
    }
    None
}

/// An allocator that serves small requests from stacks of blocks of fixed
/// sizes and all others from a free list.
pub struct FixedSizeBlockAllocator {
    list_heads: [Vec<usize>; 9],
    fallback_allocator: LinkListAllocator,
}

/// The addresses that a stack of blocks holds.
pub open spec fn addresses(blocks: Seq<usize>) -> Seq<int> {
    blocks.map_values(|block: usize| block as int)
}

/// The state that the stacks and the free list stand for.
pub open spec fn state_of(
    list_heads: [Vec<usize>; 9],
    fallback_allocator: LinkListAllocator,
) -> FixedSizeBlockState {
    FixedSizeBlockState {
        lists: Seq::new(BLOCK_SIZES.len() as nat, |class: int| addresses(list_heads[class]@)),
        fallback: fallback_allocator@,
    }
}

impl View for FixedSizeBlockAllocator {
    type V = FixedSizeBlockState;

    closed spec fn view(&self) -> FixedSizeBlockState {
        state_of(self.list_heads, self.fallback_allocator)
    }
}

impl FixedSizeBlockAllocator {
    /// Every value of the type has a valid state.
    #[verifier::type_invariant]
    pub open spec fn inv(self) -> bool {
        self@.wf()
    }

    /// The window of an allocator lies in the address space.
    pub proof fn lemma_window_in_address_space(self)
        ensures
            0 <= self@.fallback.heap_start <= usize::MAX,
            0 <= self@.fallback.heap_end <= usize::MAX,
    {
        self.fallback_allocator.lemma_window_in_address_space();
    }

    /// Creates an allocator that has no window yet: every request fails.
    pub fn new() -> (blocks: Self)
        ensures
            blocks@ == FixedSizeBlockState::unassigned(),
            blocks@.wf(),
    {
        let list_heads: [Vec<usize>; 9] = [
            Vec::new(),
            Vec::new(),
            Vec::new(),
            Vec::new(),
            Vec::new(),
            Vec::new(),
            Vec::new(),
            Vec::new(),
            Vec::new(),
        ];
        let fallback_allocator = LinkListAllocator::new();
        assert(state_of(list_heads, fallback_allocator).lists
            =~~= FixedSizeBlockState::unassigned().lists);
        FixedSizeBlockAllocator { list_heads, fallback_allocator }
    }

    /// Takes the stacks and the free list out of the allocator, to work on
    /// them, and leaves an allocator without a window in their place.
    fn take_apart(&mut self) -> (parts: ([Vec<usize>; 9], LinkListAllocator))
        ensures
            state_of(parts.0, parts.1) == old(self)@,
            final(self)@ == FixedSizeBlockState::unassigned(),
    {
        let mut taken = FixedSizeBlockAllocator::new();
        core::mem::swap(self, &mut taken);
        let FixedSizeBlockAllocator { list_heads, fallback_allocator } = taken;
        (list_heads, fallback_allocator)
    }

    /// Assigns the window of `heap_size` bytes from `heap_start`, all of it
    /// with the free list. The window is assigned once: an allocator that
    /// has one does not take another.
    pub fn init(&mut self, heap_start: usize, heap_size: usize)
        requires
            old(self)@ == FixedSizeBlockState::unassigned(),
            window_valid(heap_start as int, heap_size as int),
        ensures
            final(self)@ == FixedSizeBlockState::over(heap_start as int, heap_size as int),
            final(self)@.wf(),
    {
        let (list_heads, mut fallback_allocator) = self.take_apart();
        fallback_allocator.init(heap_start, heap_size);
        assert(state_of(list_heads, fallback_allocator).lists
            =~~= FixedSizeBlockState::unassigned().lists);
        *self = FixedSizeBlockAllocator { list_heads, fallback_allocator };
    }

    /// Assigns the window like `init` where the allocator has none and the
    /// free list can hold the window as one free region. Refuses, and
    /// changes nothing, where the allocator has a window already or the free
    /// list cannot.
    pub fn try_init(&mut self, heap_start: usize, heap_size: usize) -> (assigned: Result<
        (),
        InvariantViolation,
    >)
        ensures
            final(self)@.wf(),
            match assigned {
                Ok(_) => {
                    &&& old(self)@ == FixedSizeBlockState::unassigned()
                    &&& window_valid(heap_start as int, heap_size as int)
                    &&& final(self)@ == FixedSizeBlockState::over(
                        heap_start as int,
                        heap_size as int,
                    )
                },
                Err(_) => {
                    &&& !(old(self)@ == FixedSizeBlockState::unassigned() && window_valid(
                        heap_start as int,
                        heap_size as int,
                    ))
                    &&& final(self)@ == old(self)@
                },
            },
    {
        proof {
            use_type_invariant(&*self);
        }
        if self.is_unassigned() && heap_start % NODE_ALIGN == 0 && heap_size >= NODE_SIZE
            && heap_start.checked_add(heap_size).is_some() {
            self.init(heap_start, heap_size);
            Ok(())
        } else {
            Err(InvariantViolation)
        }
    }

    /// Serves a request from the free list.
    fn fallback_alloc(&mut self, size: usize, align: usize) -> (granted: Result<usize, AllocError>)
        requires
            is_pow2(align as int),
        ensures
            final(self)@.wf(),
            final(self)@ == old(self)@.fallback_allocated(size as int, align as int).0,
            match granted {
                Ok(addr) => old(self)@.fallback_allocated(size as int, align as int).1 == Some(
                    addr as int,
                ),
                Err(e) => e == AllocError::OutOfMemory && old(self)@.fallback_allocated(
                    size as int,
                    align as int,
                ).1.is_none(),
            },
            granted matches Ok(addr) ==> {
                &&& is_aligned(addr as int, align as int)
                &&& old(self)@.fallback.heap_start <= addr < old(self)@.fallback.heap_end
                &&& addr + size <= old(self)@.fallback.heap_end
            },
    {
        proof {
            use_type_invariant(&*self);
        }
        let ghost before = self@;
        let (list_heads, mut fallback_allocator) = self.take_apart();
        let granted = fallback_allocator.allocate(size, align);
        proof {
            let after = state_of(list_heads, fallback_allocator);
            assert forall|class: int, pos: int| #[trigger] after.has_block(class, pos) implies {
                &&& is_aligned(after.lists[class][pos], class_size(class))
                &&& after.fallback.heap_start <= after.block(class, pos).start
                &&& after.block(class, pos).end() <= after.fallback.heap_end
            } by {
                assert(before.has_block(class, pos));
            }
        }
        *self = FixedSizeBlockAllocator { list_heads, fallback_allocator };
        granted
    }

    /// Grants a block of the request's class: the one that was freed last,
    /// or, where the class has no free block, a fresh one from the free
    /// list. A request without a class goes to the free list as it is.
    /// Fails, and changes nothing, where a block is needed from the free
    /// list and no region hosts it.
    pub fn allocate(&mut self, size: usize, align: usize) -> (granted: Result<usize, AllocError>)
        requires
            is_pow2(align as int),
        ensures
            old(self)@.wf(),
            final(self)@.wf(),
            final(self)@ == old(self)@.allocated(size as int, align as int).0,
            match granted {
                Ok(addr) => old(self)@.allocated(size as int, align as int).1 == Some(addr as int),
                Err(e) => e == AllocError::OutOfMemory && old(self)@.allocated(
                    size as int,
                    align as int,
                ).1.is_none(),
            },
            granted matches Ok(addr) ==> {
                &&& is_aligned(addr as int, align as int)
                &&& old(self)@.heap_start() <= addr < old(self)@.heap_end()
                &&& addr + size <= old(self)@.heap_end() <= usize::MAX
                &&& class_of(size as int, align as int) matches Some(class) ==> {
                    &&& is_aligned(addr as int, class_size(class))
                    &&& addr + class_size(class) <= old(self)@.heap_end()
                }
            },
    {
        proof {
            use_type_invariant(&*self);
            lemma_class_of(size as int, align as int);
            lemma_small_powers(align as int);
            self.fallback_allocator.lemma_window_in_address_space();
        }
        let ghost before = self@;
        match list_index(size, align) {
            Some(index) => {
                proof {
                    lemma_class_sizes(index as int);
                    lemma_pow2_divides(align as int, class_size(index as int));
                }
                if self.list_heads[index].len() == 0 {
                    let block_size = BLOCK_SIZES[index];
                    let block_align = block_size;
                    match self.fallback_alloc(block_size, block_align) {
                        Ok(block) => {
                            proof {
                                lemma_aligned_transitive(
                                    block as int,
                                    block_align as int,
                                    align as int,
                                );
                            }
                            Ok(block)
                        },
                        Err(e) => Err(e),
                    }
                } else {
                    let (mut list_heads, fallback_allocator) = self.take_apart();
                    let popped = list_heads[index].pop();
                    proof {
                        let after = state_of(list_heads, fallback_allocator);
                        let top = before.lists[index as int].len() - 1;
                        assert(before.has_block(index as int, top));
                        assert(after.lists =~~= before.popped(index as int).lists);
                        lemma_aligned_transitive(
                            before.lists[index as int][top],
                            class_size(index as int),
                            align as int,
                        );
                        assert forall|class: int, pos: int| #[trigger]
                            after.has_block(class, pos) implies {
                            &&& is_aligned(after.lists[class][pos], class_size(class))
                            &&& after.fallback.heap_start <= after.block(class, pos).start
                            &&& after.block(class, pos).end() <= after.fallback.heap_end
                        } by {
                            assert(before.has_block(class, pos));
                        }
                    }
                    *self = FixedSizeBlockAllocator { list_heads, fallback_allocator };
                    Ok(popped.unwrap())
                }
            },
            None => self.fallback_alloc(size, align),
        }
    }

    /// Takes back a block into the stack of its class; it never returns to
    /// the free list. What was granted without a class goes back to the
    /// free list.
    pub fn deallocate(&mut self, ptr: usize, size: usize, align: usize)
        requires
            is_pow2(align as int),
            old(self)@.releasable(ptr as int, size as int, align as int),
        ensures
            final(self)@.wf(),
            final(self)@ == old(self)@.deallocated(ptr as int, size as int, align as int),
    {
        proof {
            use_type_invariant(&*self);
            lemma_class_of(size as int, align as int);
        }
        let ghost before = self@;
        let index = list_index(size, align);
        let (mut list_heads, mut fallback_allocator) = self.take_apart();
        match index {
            Some(index) => {
                // A block can carry the link of its stack.
                assert(BLOCK_NODE_SIZE <= BLOCK_SIZES[index as int]);
                assert(BLOCK_NODE_ALIGN <= BLOCK_SIZES[index as int]);
                list_heads[index].push(ptr);
            },
            None => {
                fallback_allocator.deallocate(ptr, size, align);
            },
        }
        proof {
            let after = state_of(list_heads, fallback_allocator);
            let expected = before.deallocated(ptr as int, size as int, align as int);
            assert(after.lists =~~= expected.lists);
            assert forall|class: int, pos: int| #[trigger] after.has_block(class, pos) implies {
                &&& is_aligned(after.lists[class][pos], class_size(class))
                &&& after.fallback.heap_start <= after.block(class, pos).start
                &&& after.block(class, pos).end() <= after.fallback.heap_end
            } by {
                if !before.has_block(class, pos) {
                    assert(index == Some(class as usize));
                    assert(after.lists[class][pos] == ptr);
                }
            }
        }
        *self = FixedSizeBlockAllocator { list_heads, fallback_allocator };
    }

    /// Takes back a grant like `deallocate` where the allocator can accept
    /// it. Refuses, and changes nothing, where it cannot.
    pub fn try_deallocate(&mut self, ptr: usize, size: usize, align: usize) -> (released: Result<
        (),
        InvariantViolation,
    >)
        requires
            is_pow2(align as int),
        ensures
            final(self)@.wf(),
            match released {
                Ok(_) => {
                    &&& old(self)@.releasable(ptr as int, size as int, align as int)
                    &&& final(self)@ == old(self)@.deallocated(
                        ptr as int,
                        size as int,
                        align as int,
                    )
                },
                Err(_) => {
                    &&& !old(self)@.releasable(ptr as int, size as int, align as int)
                    &&& final(self)@ == old(self)@
                },
            },
    {
        if self.can_deallocate(ptr, size, align) {
            self.deallocate(ptr, size, align);
            Ok(())
        } else {
            proof {
                use_type_invariant(&*self);
            }
            Err(InvariantViolation)
        }
    }

    /// Whether the allocator can take back `ptr` as granted to a request for
    /// `size` bytes at a multiple of `align`: a block of the request's class
    /// at `ptr` lies in the window at a multiple of its size, or, for a
    /// request without a class, the free list can take `ptr` back.
    pub fn can_deallocate(&self, ptr: usize, size: usize, align: usize) -> (ok: bool)
        requires
            is_pow2(align as int),
        ensures
            ok == self@.releasable(ptr as int, size as int, align as int),
    {
        proof {
            use_type_invariant(self);
            lemma_class_of(size as int, align as int);
        }
        match list_index(size, align) {
            Some(index) => {
                let block_size = BLOCK_SIZES[index];
                ptr % block_size == 0 && self.fallback_allocator.heap_start() <= ptr && ptr
                    <= self.fallback_allocator.heap_end() && block_size
                    <= self.fallback_allocator.heap_end() - ptr
            },
            None => self.fallback_allocator.can_deallocate(ptr, size, align),
        }
    }

    /// Whether the allocator has no window yet.
    pub fn is_unassigned(&self) -> (unassigned: bool)
        ensures
            unassigned == (self@ == FixedSizeBlockState::unassigned()),
    {
        let mut class: usize = 0;
        while class < BLOCK_SIZES.len()
            invariant
                class <= BLOCK_SIZES.len(),
                forall|c: int| 0 <= c < class ==> (#[trigger] self@.lists[c]).len() == 0,
            decreases BLOCK_SIZES.len() - class,
        {
            if self.list_heads[class].len() != 0 {
                assert(self@.lists[class as int].len() != 0);
                return false;
            }
            class = class + 1;
        }
        let unassigned = self.fallback_allocator.is_unassigned();
        proof {
            if unassigned {
                assert(self@.lists =~~= FixedSizeBlockState::unassigned().lists);
            }
        }
        unassigned
    }

    /// First address of the window.
    pub fn heap_start(&self) -> (addr: usize)
        ensures
            addr == self@.heap_start(),
    {
        self.fallback_allocator.heap_start()
    }

    /// First address past the window.
    pub fn heap_end(&self) -> (addr: usize)
        ensures
            addr == self@.heap_end(),
    {
        self.fallback_allocator.heap_end()
    }

    /// Number of free blocks of class `class`.
    pub fn block_count(&self, class: usize) -> (count: usize)
        requires
            class < BLOCK_SIZES.len(),
        ensures
            count == self@.lists[class as int].len(),
    {
        self.list_heads[class].len()
    }

    /// Number of free regions of the free list behind the classes.
    pub fn fallback_region_count(&self) -> (count: usize)
        ensures
            count == self@.fallback.free.len(),
    {
        self.fallback_allocator.region_count()
    }
}

impl Locked<FixedSizeBlockAllocator> {
    /// Takes the lock and asks the allocator behind it for `size` bytes at a
    /// multiple of `align`. The answer is that of the allocator in the state
    /// that the lock holds when it is taken: the address that the strategy
    /// grants there, or the failure where it grants none. Whatever that
    /// state, a granted address is a multiple of `align`, and of the block
    /// size of the request's class where it has one, and the bytes granted
    /// end in the address space.
    pub fn allocate(&self, size: usize, align: usize) -> (granted: Result<usize, AllocError>)
        requires
            is_pow2(align as int),
        ensures
            exists|state: FixedSizeBlockState| #[trigger]
                state.representable() && answers(state, size as int, align as int, granted),
            granted matches Ok(addr) ==> {
                &&& is_aligned(addr as int, align as int)
                &&& addr + size <= usize::MAX
                &&& class_of(size as int, align as int) matches Some(class) ==> is_aligned(
                    addr as int,
                    class_size(class),
                ) && addr + class_size(class) <= usize::MAX
            },
    {
        let mut guard = self.lock();
        let blocks = guarded(&mut guard);
        let ghost held = blocks@;
        proof {
            blocks.lemma_window_in_address_space();
        }
        let granted = blocks.allocate(size, align);
        assert(held.representable() && answers(held, size as int, align as int, granted));
        granted
    }

    /// Takes the lock and assigns the window to the allocator behind it. The
    /// answer is that of the allocator in the state that the lock holds when
    /// it is taken: the window is assigned exactly where the allocator has
    /// none and the free list can hold the window as one free region. A
    /// window that cannot be held so is refused whatever that state.
    pub fn init(&self, heap_start: usize, heap_size: usize) -> (assigned: Result<
        (),
        InvariantViolation,
    >)
        ensures
            exists|state: FixedSizeBlockState| #[trigger]
                state.representable() && state.takes_window(
                    heap_start as int,
                    heap_size as int,
                    assigned,
                ),
            !window_valid(heap_start as int, heap_size as int) ==> assigned is Err,
    {
        let mut guard = self.lock();
        let blocks = guarded(&mut guard);
        let ghost held = blocks@;
        proof {
            use_type_invariant(&*blocks);
            blocks.lemma_window_in_address_space();
        }
        let assigned = blocks.try_init(heap_start, heap_size);
        assert(held.representable() && held.takes_window(
            heap_start as int,
            heap_size as int,
            assigned,
        ));
        assigned
    }

    /// Takes the lock and gives a grant back to the allocator behind it. The
    /// answer is that of the allocator in the state that the lock holds when
    /// it is taken: the grant is taken back exactly where a block of the
    /// request's class at the address lies in the window at a multiple of
    /// its size, or, for a request without a class, where the free list
    /// accepts the address. An address that is no multiple of the block size
    /// of the request's class is refused whatever that state.
    pub fn deallocate(&self, ptr: usize, size: usize, align: usize) -> (released: Result<
        (),
        InvariantViolation,
    >)
        requires
            is_pow2(align as int),
        ensures
            exists|state: FixedSizeBlockState| #[trigger]
                state.representable() && accepts(
                    state,
                    ptr as int,
                    size as int,
                    align as int,
                    released,
                ),
            class_of(size as int, align as int) matches Some(class) ==> (!is_aligned(
                ptr as int,
                class_size(class),
            ) ==> released is Err),
            class_of(size as int, align as int).is_none() && !is_aligned(
                ptr as int,
                NODE_ALIGN as int,
            ) ==> released is Err,
    {
        let mut guard = self.lock();
        let blocks = guarded(&mut guard);
        let ghost held = blocks@;
        proof {
            use_type_invariant(&*blocks);
            blocks.lemma_window_in_address_space();
        }
        let released = blocks.try_deallocate(ptr, size, align);
        assert(held.representable() && accepts(
            held,
            ptr as int,
            size as int,
            align as int,
            released,
        ));
        released
    }
}

/// Every request for at most eight bytes, aligned to at most eight, is of
/// the class of the eight-byte blocks, and that class sets aside eight bytes.
pub proof fn lemma_small_requests_use_smallest_class(size: int, align: int)
    requires
        0 <= size <= 8,
        is_pow2(align),
        align <= 8,
    ensures
        class_of(size, align) == Some(0int),
        class_size(0) == 8,
        FixedSizeBlockState::reserved(size, align) == 8,
{
}

/// A request for more than 2048 bytes, or aligned to more, has no class: it
/// is served by the free list, as it is, and goes back to the free list.
pub proof fn lemma_large_requests_go_to_fallback(
    state: FixedSizeBlockState,
    addr: int,
    size: int,
    align: int,
)
    requires
        size > 2048 || align > 2048,
    ensures
        class_of(size, align).is_none(),
        state.allocated(size, align) == state.fallback_allocated(size, align),
        state.allocated(size, align).0.lists == state.lists,
        state.deallocated(addr, size, align).lists == state.lists,
        state.deallocated(addr, size, align).fallback == state.fallback.deallocated(
            addr,
            size,
            align,
        ),
{
    reveal_with_fuel(class_from, 10);
}

/// A block that comes back stays with its class. The free list behind the
/// classes is as it was, and the next request of the class gets the block.
pub proof fn lemma_released_block_is_reused(
    state: FixedSizeBlockState,
    addr: int,
    size: int,
    align: int,
    next_size: int,
    next_align: int,
)
    requires
        state.wf(),
        class_of(size, align).is_some(),
        class_of(next_size, next_align) == class_of(size, align),
    ensures
        state.deallocated(addr, size, align).fallback == state.fallback,
        state.deallocated(addr, size, align).allocated(next_size, next_align) == (
            state,
            Some(addr),
        ),
{
    lemma_class_of(size, align);
    let class = class_of(size, align).unwrap();
    let freed = state.deallocated(addr, size, align);
    assert(freed.lists[class].drop_last() =~= state.lists[class]);
    assert(freed.popped(class).lists =~= state.lists);
}

} // verus!
