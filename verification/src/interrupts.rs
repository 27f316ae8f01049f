//! Where the hardware interrupts sit in the interrupt table.

use vstd::prelude::*;

verus! {

/// First vector of the primary interrupt controller.
pub const PIC_1_OFFSET: u8 = 32;

/// First vector of the secondary interrupt controller.
pub const PIC_2_OFFSET: u8 = PIC_1_OFFSET + 8;

/// The hardware interrupts that the kernel handles.
#[derive(Debug, Clone, Copy, PartialEq, Eq, Structural)]
pub enum InterruptIndex {
    Timer,
    Keyboard,
}

impl InterruptIndex {
    /// The interrupt's vector: the timer is the first line of the primary
    /// controller, the keyboard the second.
    pub open spec fn vector(self) -> u8 {
        match self {
            InterruptIndex::Timer => PIC_1_OFFSET,
            InterruptIndex::Keyboard => (PIC_1_OFFSET + 1) as u8,
        }
    }

    /// The interrupt's vector as the controllers count it.
    pub fn as_u8(self) -> (vector: u8)
        ensures
            vector == self.vector(),
            PIC_1_OFFSET <= vector < PIC_2_OFFSET,
    {
        match self {
            InterruptIndex::Timer => PIC_1_OFFSET,
            InterruptIndex::Keyboard => PIC_1_OFFSET + 1,
        }
    }

    /// The interrupt's vector as an index into the interrupt table.
    pub fn as_usize(self) -> (index: usize)
        ensures
            index == self.vector(),
    {
        self.as_u8() as usize
    }
}

} // verus!
