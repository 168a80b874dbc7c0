//! Interrupts, as far as they are numbers: where the controllers put
//! their interrupts, and the stack that a double fault runs on.

use vstd::prelude::*;
use crate::memory::model::MemoryModel;
use crate::memory::stack_allocator::{stack_request, Stack};
use crate::memory::{MemoryController, MemoryError};

verus! {

/// The first interrupt number of the first interrupt controller.
pub const PIC_1_OFFSET: u8 = 32;

/// The first interrupt number of the second interrupt controller.
pub const PIC_2_OFFSET: u8 = PIC_1_OFFSET + 8;

/// The slot of the interrupt stack table that holds the stack for double
/// faults.
pub const DOUBLE_FAULT_IST_INDEX: usize = 0;

/// The size of the stack for double faults, in pages.
pub const DOUBLE_FAULT_STACK_PAGES: usize = 2;

/// The interrupts of the devices that are served.
#[derive(Debug, Clone, Copy, PartialEq, Eq, Structural)]
pub enum InterruptIndex {
    Timer,
    Keyboard,
}

impl InterruptIndex {
    /// The interrupt number: the timer has the first of the first
    /// controller, the keyboard the next.
    pub open spec fn spec_as_u8(self) -> u8 {
        match self {
            InterruptIndex::Timer => 32,
            InterruptIndex::Keyboard => 33,
        }
    }

    /// The interrupt number.
    #[verifier::when_used_as_spec(spec_as_u8)]
    pub fn as_u8(self) -> (number: u8)
        ensures
            number == self.spec_as_u8(),
    {
        match self {
            InterruptIndex::Timer => PIC_1_OFFSET,
            InterruptIndex::Keyboard => PIC_1_OFFSET + 1,
        }
    }

    /// The interrupt number, as an index into the table of handlers.
    pub fn as_usize(self) -> (number: usize)
        ensures
            number == self.spec_as_u8(),
    {
        self.as_u8() as usize
    }
}

/// Makes the stack that double faults are handled on, of two pages with a
/// guard page below. Its top goes to the slot `DOUBLE_FAULT_IST_INDEX` of
/// the interrupt stack table.
pub fn init(memory_controller: &mut MemoryController) -> (result: Result<Stack, MemoryError>)
    requires
        old(memory_controller).wf(),
    ensures
        final(memory_controller).wf(),
        final(memory_controller).root() == old(memory_controller).root(),
        final(memory_controller).stack_pages().1 == old(memory_controller).stack_pages().1,
        ({
            let (next, after, outcome) = stack_request(
                old(memory_controller).stack_pages().0,
                old(memory_controller).stack_pages().1,
                old(memory_controller).memory(),
                2,
            );
            &&& final(memory_controller).stack_pages().0 == next
            &&& final(memory_controller).memory() == after
            &&& match outcome {
                Ok((top, bottom)) => {
                    &&& result is Ok
                    &&& result.unwrap().top() == top
                    &&& result.unwrap().bottom() == bottom
                    &&& result.unwrap().wf()
                    &&& result.unwrap().first_page() == old(memory_controller).stack_pages().0 + 1
                    &&& result.unwrap().end_page() == final(memory_controller).stack_pages().0
                },
                Err(e) => result matches Err(error) && error == e,
            }
        }),
{
    memory_controller.allocate_stack(DOUBLE_FAULT_STACK_PAGES)
}

} // verus!
