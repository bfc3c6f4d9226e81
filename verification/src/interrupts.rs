use vstd::prelude::*;

verus! {

/// First interrupt vector of the primary interrupt controller.
pub const PIC_1_OFFSET: u8 = 32;

/// First interrupt vector of the secondary interrupt controller.
pub const PIC_2_OFFSET: u8 = PIC_1_OFFSET + 8;

/// Interrupt vector of the timer.
pub const TIMER_INTERRUPT_ID: u8 = PIC_1_OFFSET;

/// Interrupt vector of the keyboard.
pub const KEYBOARD_INTERRUPT_ID: u8 = PIC_1_OFFSET + 1;

/// Interrupt vector of the breakpoint exception.
pub const BREAKPOINT_VECTOR: u8 = 3;

/// Interrupt vector of the double fault exception.
pub const DOUBLE_FAULT_VECTOR: u8 = 8;

/// Interrupt vector of the page fault exception.
pub const PAGE_FAULT_VECTOR: u8 = 14;

/// Slot of the interrupt stack table whose stack the double fault handler
/// runs on.
pub const DOUBLE_FAULT_IST_INDEX: u16 = 0;

/// Number of interrupt vectors.
pub const VECTORS: usize = 256;

/// The routines that the kernel installs for interrupts.
#[derive(Clone, Copy, Debug, PartialEq, Eq, Structural)]
pub enum InterruptHandler {
    /// Reports the breakpoint and goes on.
    Breakpoint,
    /// Reports the double fault and halts.
    DoubleFault,
    /// Commits a page, or reports the fault and halts.
    PageFault,
    /// Acknowledges the timer tick.
    Timer,
    /// Reads and reports the key.
    Keyboard,
}

/// The routine that the kernel installs for `vector`, if it installs one.
pub open spec fn handler_of(vector: int) -> Option<InterruptHandler> {
    if vector == BREAKPOINT_VECTOR {
        Some(InterruptHandler::Breakpoint)
    } else if vector == DOUBLE_FAULT_VECTOR {
        Some(InterruptHandler::DoubleFault)
    } else if vector == PAGE_FAULT_VECTOR {
        Some(InterruptHandler::PageFault)
    } else if vector == TIMER_INTERRUPT_ID {
        Some(InterruptHandler::Timer)
    } else if vector == KEYBOARD_INTERRUPT_ID {
        Some(InterruptHandler::Keyboard)
    } else {
        None
    }
}

/// Which routine handles which interrupt vector, and on which stack of the
/// interrupt stack table the double fault handler runs.
pub struct InterruptTable {
    handlers: Vec<Option<InterruptHandler>>,
    double_fault_stack: u16,
}

impl View for InterruptTable {
    type V = Seq<Option<InterruptHandler>>;

    closed spec fn view(&self) -> Seq<Option<InterruptHandler>> {
        self.handlers@
    }
}

impl InterruptTable {
    /// The slot of the interrupt stack table for the double fault handler.
    pub closed spec fn stack_index(&self) -> u16 {
        self.double_fault_stack
    }

    /// The routine for `vector`, if the table holds one.
    pub fn handler(&self, vector: u8) -> (handler: Option<InterruptHandler>)
        ensures
            handler == if vector < self@.len() {
                self@[vector as int]
            } else {
                None
            },
    {
        if (vector as usize) < self.handlers.len() {
            self.handlers[vector as usize]
        } else {
            None
        }
    }

    /// The slot of the interrupt stack table for the double fault handler.
    pub fn double_fault_stack_index(&self) -> (index: u16)
        ensures
            index == self.stack_index(),
    {
        self.double_fault_stack
    }
}

/// The interrupt table of the kernel: routines for the breakpoint, double
/// fault and page fault exceptions and for the timer and the keyboard, none
/// for any other vector.
pub fn init_idt() -> (table: InterruptTable)
    ensures
        table@.len() == VECTORS,
        forall|vector: int|
            0 <= vector < VECTORS ==> #[trigger] table@[vector] == handler_of(vector),
        table.stack_index() == DOUBLE_FAULT_IST_INDEX,
{
    let mut handlers: Vec<Option<InterruptHandler>> = Vec::new();
    let mut vector: usize = 0;
    while vector < 256
        invariant
            vector <= 256,
            handlers@.len() == vector,
            forall|v: int| 0 <= v < vector ==> handlers@[v] == None::<InterruptHandler>,
        decreases 256 - vector,
    {
        handlers.push(None);
        vector += 1;
    }
    handlers.set(BREAKPOINT_VECTOR as usize, Some(InterruptHandler::Breakpoint));
    handlers.set(PAGE_FAULT_VECTOR as usize, Some(InterruptHandler::PageFault));
    handlers.set(DOUBLE_FAULT_VECTOR as usize, Some(InterruptHandler::DoubleFault));
    handlers.set(TIMER_INTERRUPT_ID as usize, Some(InterruptHandler::Timer));
    handlers.set(KEYBOARD_INTERRUPT_ID as usize, Some(InterruptHandler::Keyboard));
    InterruptTable { handlers, double_fault_stack: DOUBLE_FAULT_IST_INDEX }
}

} // verus!
