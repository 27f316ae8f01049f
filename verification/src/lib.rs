//! The verified core of a small kernel. Its centre is the heap: three
//! allocation strategies over a fixed window of virtual addresses, the lock
//! that serialises access to the one in use, and the decisions of the boot
//! step that backs the window with memory. Around it stand the frame
//! provider and the walk through the page tables, the writer of the text
//! screen, the places of the hardware interrupts, and the test harness.
//!
//! The library hands out addresses and never touches the memory behind
//! them: it keeps its records of free memory in collections of its own.

use vstd::prelude::*;

pub mod allocator;
pub mod interrupts;
pub mod memory;
pub mod vga_buffer;

verus! {

/// How the emulator is told that a test run ended.
#[derive(Debug, Clone, Copy, PartialEq, Eq, Structural)]
pub enum QemuExitCode {
    Success,
    Failed,
}

impl QemuExitCode {
    /// The number written to the emulator's exit port.
    pub open spec fn code_spec(self) -> u32 {
        match self {
            QemuExitCode::Success => 0x10,
            QemuExitCode::Failed => 0x11,
        }
    }

    /// The number written to the emulator's exit port.
    #[verifier::when_used_as_spec(code_spec)]
    pub fn code(self) -> (code: u32)
        ensures
            code == self.code_spec(),
    {
        match self {
            QemuExitCode::Success => 0x10,
            QemuExitCode::Failed => 0x11,
        }
    }
}

/// Something that a test run can run.
pub trait Testable {
    /// Whether the test may be started. A test may, unless it says
    /// otherwise.
    open spec fn runnable(&self) -> bool {
        true
    }

    /// What is known once the test has returned. Nothing, unless the test
    /// says otherwise.
    open spec fn passed(&self) -> bool {
        true
    }

    /// Runs the test. A test that fails does not return.
    fn run(&self)
        requires
            self.runnable(),
        ensures
            self.passed(),
    ;
}

impl<T> Testable for T where T: Fn() {
    open spec fn runnable(&self) -> bool {
        self.requires(())
    }

    open spec fn passed(&self) -> bool {
        self.ensures((), ())
    }

    fn run(&self) {
        self();
    }
}

/// Runs the tests in order, each to its end, and returns the exit code of a
/// run in which every test returned.
pub fn test_runner(tests: &[&dyn Testable]) -> (code: QemuExitCode)
    requires
        forall|i: int| 0 <= i < tests@.len() ==> (#[trigger] tests@[i]).runnable(),
    ensures
        forall|i: int| 0 <= i < tests@.len() ==> (#[trigger] tests@[i]).passed(),
        code == QemuExitCode::Success,
{
    let mut i: usize = 0;
    while i < tests.len()
        invariant
            i <= tests.len(),
            forall|k: int| 0 <= k < tests@.len() ==> (#[trigger] tests@[k]).runnable(),
            forall|k: int| 0 <= k < i ==> (#[trigger] tests@[k]).passed(),
        decreases tests.len() - i,
    {
        tests[i].run();
        i = i + 1;
    }
    QemuExitCode::Success
}

} // verus!
