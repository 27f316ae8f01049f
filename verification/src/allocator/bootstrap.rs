//! The decisions of the boot step that provisions the heap window: which
//! page is backed next, what is asked of the frame provider and the page
//! mapper, when a stale translation is flushed, when the allocator is
//! initialised, and how the step ends. The boot code performs each action
//! and reports what came of it.

use vstd::prelude::*;

verus! {

/// Bytes in a page of virtual memory, and in a frame of physical memory.
pub const PAGE_SIZE: u64 = 4096;

/// Permission of a mapping: the page is present.
pub const PAGE_PRESENT: u64 = 1;

/// Permission of a mapping: the page may be written.
pub const PAGE_WRITABLE: u64 = 2;

/// Why the heap could not be provisioned.
#[derive(Debug, Clone, Copy, PartialEq, Eq, Structural)]
pub enum BootstrapError {
    /// The frame provider has no frame left.
    FrameAllocationFailed,
    /// The page mapper rejected a mapping.
    MappingFailed,
}

/// What the boot code reports back.
#[derive(Debug, Clone, Copy, PartialEq, Eq)]
pub enum Event {
    /// The frame provider answered: the start address of a frame, or none.
    Frame(Option<u64>),
    /// The page mapper answered: whether the page is mapped.
    Mapped(bool),
    /// The stale translation of the page is flushed.
    Flushed,
    /// The allocator is initialised over the window.
    Initialized,
}

/// What the boot code does next.
#[derive(Debug, Clone, Copy, PartialEq, Eq)]
pub enum Action {
    /// Ask the frame provider for one frame, to back the page at `page`.
    AllocateFrame { page: u64 },
    /// Map the page at `page` to the frame at `frame` with the permissions
    /// `flags`.
    MapPage { page: u64, frame: u64, flags: u64 },
    /// Flush the translation that the processor may still hold of the page
    /// at `page`.
    FlushPage { page: u64 },
    /// Initialise the allocator over the window.
    InitAllocator { heap_start: u64, heap_size: u64 },
    /// Stop: the heap is provisioned, or it cannot be.
    Finish(Result<(), BootstrapError>),
}

/// What the boot step waits for.
#[derive(Debug, Clone, Copy, PartialEq, Eq)]
pub enum Stage {
    /// The answer of the frame provider, for the current page.
    AwaitFrame,
    /// The answer of the page mapper, for the current page and `frame`.
    AwaitMapping { frame: u64 },
    /// The flush of the current page, which is mapped.
    AwaitFlush,
    /// The initialisation of the allocator. Every page is mapped.
    AwaitInit,
    /// Nothing: the heap is provisioned.
    Done,
    /// Nothing: the heap cannot be provisioned.
    Failed(BootstrapError),
}

/// Start address of the page that holds `addr`.
pub open spec fn page_of(addr: int) -> int {
    addr - addr % (PAGE_SIZE as int)
}

/// The state of the boot step.
pub struct BootstrapState {
    /// First address of the window.
    pub heap_start: int,
    /// Bytes in the window.
    pub heap_size: int,
    /// Start address of the current page: the first that is not yet mapped,
    /// or the last of the window when all are.
    pub page: int,
    /// What the step waits for.
    pub stage: Stage,
}

impl BootstrapState {
    /// Start address of the first page of the window.
    pub open spec fn first_page(self) -> int {
        page_of(self.heap_start)
    }

    /// Start address of the last page of the window.
    pub open spec fn last_page(self) -> int {
        page_of(self.heap_start + self.heap_size - 1)
    }

    /// Number of pages that the window touches.
    pub open spec fn page_count(self) -> int {
        (self.last_page() - self.first_page()) / (PAGE_SIZE as int) + 1
    }

    /// Number of pages that are mapped.
    pub open spec fn mapped_pages(self) -> int {
        (self.page - self.first_page()) / (PAGE_SIZE as int) + if self.stage is AwaitFlush
            || self.stage is AwaitInit || self.stage is Done {
            1int
        } else {
            0int
        }
    }

    /// The validity that the step keeps: the current page is a page of the
    /// window, and the allocator is initialised only after the last page is
    /// mapped and flushed.
    pub open spec fn wf(self) -> bool {
        &&& 0 <= self.heap_start
        &&& 0 < self.heap_size
        &&& self.heap_start + self.heap_size - 1 <= u64::MAX
        &&& self.first_page() <= self.page <= self.last_page()
        &&& self.page % (PAGE_SIZE as int) == 0
        &&& (self.stage is AwaitInit || self.stage is Done) ==> self.page == self.last_page()
    }

    /// The state at the start: the first page waits for its frame.
    pub open spec fn start(heap_start: int, heap_size: int) -> BootstrapState {
        BootstrapState {
            heap_start,
            heap_size,
            page: page_of(heap_start),
            stage: Stage::AwaitFrame,
        }
    }

    /// What the boot code has to do in this state.
    pub open spec fn pending(self) -> Action {
        match self.stage {
            Stage::AwaitFrame => Action::AllocateFrame { page: self.page as u64 },
            Stage::AwaitMapping { frame } => Action::MapPage {
                page: self.page as u64,
                frame,
                flags: PAGE_PRESENT | PAGE_WRITABLE,
            },
            Stage::AwaitFlush => Action::FlushPage { page: self.page as u64 },
            Stage::AwaitInit => Action::InitAllocator {
                heap_start: self.heap_start as u64,
                heap_size: self.heap_size as u64,
            },
            Stage::Done => Action::Finish(Ok(())),
            Stage::Failed(error) => Action::Finish(Err(error)),
        }
    }

    /// The state after the boot code reports `event`. A report that the
    /// state does not wait for changes nothing.
    pub open spec fn after(self, event: Event) -> BootstrapState {
        match (self.stage, event) {
            (Stage::AwaitFrame, Event::Frame(Some(frame))) => BootstrapState {
                stage: Stage::AwaitMapping { frame },
                ..self
            },
            (Stage::AwaitFrame, Event::Frame(None)) => BootstrapState {
                stage: Stage::Failed(BootstrapError::FrameAllocationFailed),
                ..self
            },
            (Stage::AwaitMapping { frame }, Event::Mapped(true)) => BootstrapState {
                stage: Stage::AwaitFlush,
                ..self
            },
            (Stage::AwaitMapping { frame }, Event::Mapped(false)) => BootstrapState {
                stage: Stage::Failed(BootstrapError::MappingFailed),
                ..self
            },
            (Stage::AwaitFlush, Event::Flushed) => {
                if self.page == self.last_page() {
                    BootstrapState { stage: Stage::AwaitInit, ..self }
                } else {
                    BootstrapState {
                        page: self.page + PAGE_SIZE,
                        stage: Stage::AwaitFrame,
                        ..self
                    }
                }
            },
            (Stage::AwaitInit, Event::Initialized) => BootstrapState { stage: Stage::Done, ..self },
            _ => self,
        }
    }

    /// The state after the reports of `events`, in order.
    pub open spec fn after_all(self, events: Seq<Event>) -> BootstrapState
        decreases events.len(),
    {
        if events.len() == 0 {
            self
        } else {
            self.after_all(events.drop_last()).after(events.last())
        }
    }
}

/// Two page starts a whole number of pages apart, the lower below the
/// higher, are at least one page apart.
proof fn lemma_next_page(page: int, last: int)
    requires
        page % (PAGE_SIZE as int) == 0,
        last % (PAGE_SIZE as int) == 0,
        page < last,
    ensures
        page + PAGE_SIZE <= last,
        (page + PAGE_SIZE) % (PAGE_SIZE as int) == 0,
{
}

/// A report keeps the state valid, never unmaps a page, and maps one page
/// exactly where the mapper reports success.
pub proof fn lemma_after(state: BootstrapState, event: Event)
    requires
        state.wf(),
    ensures
        state.after(event).wf(),
        state.after(event).heap_start == state.heap_start,
        state.after(event).heap_size == state.heap_size,
        state.after(event).mapped_pages() == state.mapped_pages() + if state.stage is AwaitMapping
            && event == Event::Mapped(true) {
            1int
        } else {
            0int
        },
        state.after(event).mapped_pages() <= state.page_count(),
{
    if state.page < state.last_page() {
        lemma_next_page(state.page, state.last_page());
    }
}

/// The allocator is initialised only when every page of the window is
/// mapped.
pub proof fn lemma_init_after_all_pages(state: BootstrapState)
    requires
        state.wf(),
        state.pending() is InitAllocator || state.pending() == Action::Finish(Ok(())),
    ensures
        state.mapped_pages() == state.page_count(),
{
}

/// The boot step runs once: when it has ended, no report starts it again,
/// and the allocator is not initialised a second time.
pub proof fn lemma_finished_stays_finished(state: BootstrapState, events: Seq<Event>)
    requires
        state.stage is Done || state.stage is Failed,
    ensures
        state.after_all(events) == state,
        state.after_all(events).pending() is Finish,
    decreases events.len(),
{
    if events.len() > 0 {
        lemma_finished_stays_finished(state, events.drop_last());
    }
}

/// Number of times that the allocator is initialised while the reports of
/// `events` come in, in order, from `state` on.
pub open spec fn initialisations(state: BootstrapState, events: Seq<Event>) -> int
    decreases events.len(),
{
    if events.len() == 0 {
        0
    } else {
        let before = state.after_all(events.drop_last());
        initialisations(state, events.drop_last()) + if before.stage is AwaitInit && events.last()
            == Event::Initialized {
            1int
        } else {
            0int
        }
    }
}

/// Whatever is reported, and in whatever order, the allocator is
/// initialised at most once, and it is initialised exactly where the boot
/// step ends well.
pub proof fn lemma_initialised_at_most_once(heap_start: int, heap_size: int, events: Seq<Event>)
    ensures
        ({
            let start = BootstrapState::start(heap_start, heap_size);
            &&& 0 <= initialisations(start, events) <= 1
            &&& initialisations(start, events) == 1 <==> start.after_all(events).stage is Done
        }),
    decreases events.len(),
{
    if events.len() > 0 {
        lemma_initialised_at_most_once(heap_start, heap_size, events.drop_last());
    }
}

/// The boot step for one heap window.
pub struct HeapBootstrap {
    heap_start: u64,
    heap_size: u64,
    page: u64,
    stage: Stage,
}

impl View for HeapBootstrap {
    type V = BootstrapState;

    closed spec fn view(&self) -> BootstrapState {
        BootstrapState {
            heap_start: self.heap_start as int,
            heap_size: self.heap_size as int,
            page: self.page as int,
            stage: self.stage,
        }
    }
}

impl HeapBootstrap {
    /// Every value of the type has a valid state.
    #[verifier::type_invariant]
    pub open spec fn inv(self) -> bool {
        self@.wf()
    }

    /// Starts the boot step for the window of `heap_size` bytes from
    /// `heap_start`.
    pub fn new(heap_start: u64, heap_size: u64) -> (boot: Self)
        requires
            0 < heap_size,
            heap_start + heap_size - 1 <= u64::MAX,
        ensures
            boot@ == BootstrapState::start(heap_start as int, heap_size as int),
            boot@.wf(),
    {
        HeapBootstrap {
            heap_start,
            heap_size,
            page: heap_start - heap_start % PAGE_SIZE,
            stage: Stage::AwaitFrame,
        }
    }

    /// What the boot code has to do now.
    pub fn pending(&self) -> (action: Action)
        ensures
            action == self@.pending(),
    {
        match self.stage {
            Stage::AwaitFrame => Action::AllocateFrame { page: self.page },
            Stage::AwaitMapping { frame } => Action::MapPage {
                page: self.page,
                frame,
                flags: PAGE_PRESENT | PAGE_WRITABLE,
            },
            Stage::AwaitFlush => Action::FlushPage { page: self.page },
            Stage::AwaitInit => Action::InitAllocator {
                heap_start: self.heap_start,
                heap_size: self.heap_size,
            },
            Stage::Done => Action::Finish(Ok(())),
            Stage::Failed(error) => Action::Finish(Err(error)),
        }
    }

    /// Takes the report of what the boot code did and returns what it has to
    /// do next.
    pub fn step(&mut self, event: Event) -> (action: Action)
        ensures
            final(self)@ == old(self)@.after(event),
            final(self)@.wf(),
            action == final(self)@.pending(),
    {
        proof {
            use_type_invariant(&*self);
            lemma_after(self@, event);
        }
        let last_page = self.last_page();
        let (page, stage) = match (self.stage, event) {
            (Stage::AwaitFrame, Event::Frame(Some(frame))) => (
                self.page,
                Stage::AwaitMapping { frame },
            ),
            (Stage::AwaitFrame, Event::Frame(None)) => (
                self.page,
                Stage::Failed(BootstrapError::FrameAllocationFailed),
            ),
            (Stage::AwaitMapping { frame }, Event::Mapped(true)) => (self.page, Stage::AwaitFlush),
            (Stage::AwaitMapping { frame }, Event::Mapped(false)) => (
                self.page,
                Stage::Failed(BootstrapError::MappingFailed),
            ),
            (Stage::AwaitFlush, Event::Flushed) => {
                if self.page == last_page {
                    (self.page, Stage::AwaitInit)
                } else {
                    proof {
                        lemma_next_page(self.page as int, last_page as int);
                    }
                    (self.page + PAGE_SIZE, Stage::AwaitFrame)
                }
            },
            (Stage::AwaitInit, Event::Initialized) => (self.page, Stage::Done),
            _ => (self.page, self.stage),
        };
        *self = HeapBootstrap { heap_start: self.heap_start, heap_size: self.heap_size, page, stage };
        self.pending()
    }

    /// Start address of the last page of the window.
    fn last_page(&self) -> (page: u64)
        ensures
            page == self@.last_page(),
    {
        proof {
            use_type_invariant(self);
        }
        let last_byte: u64 = self.heap_start + (self.heap_size - 1);
        last_byte - last_byte % PAGE_SIZE
    }
}

} // verus!
