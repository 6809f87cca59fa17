use vstd::prelude::*;

verus! {

/// First vector of the primary interrupt controller; vectors below it belong to CPU
/// exceptions.
pub const PIC_1_OFFSET: u8 = 32;

/// First vector of the secondary interrupt controller.
pub const PIC_2_OFFSET: u8 = PIC_1_OFFSET + 8;

/// Vector of the breakpoint exception.
pub const BREAKPOINT_VECTOR: usize = 3;

/// Vector of the double-fault exception.
pub const DOUBLE_FAULT_VECTOR: usize = 8;

/// Vector of the page-fault exception.
pub const PAGE_FAULT_VECTOR: usize = 14;

/// Entries in the interrupt descriptor table.
pub const IDT_ENTRIES: usize = 256;

/// Hardware interrupts, numbered from the primary controller's first vector.
#[derive(Clone, Copy, Debug, PartialEq, Eq, Structural)]
pub enum InterruptIndex {
    Timer,
    Keyboard,
}

/// The vector an interrupt arrives on.
pub open spec fn vector(i: InterruptIndex) -> int {
    match i {
        InterruptIndex::Timer => PIC_1_OFFSET as int,
        InterruptIndex::Keyboard => PIC_1_OFFSET + 1,
    }
}

impl InterruptIndex {
    /// The vector of this interrupt.
    pub fn as_u8(self) -> (r: u8)
        ensures
            r == vector(self),
    {
        match self {
            InterruptIndex::Timer => PIC_1_OFFSET,
            InterruptIndex::Keyboard => PIC_1_OFFSET + 1,
        }
    }

    /// The vector of this interrupt, as a table index.
    pub fn as_usize(self) -> (r: usize)
        ensures
            r == vector(self),
    {
        self.as_u8() as usize
    }
}

/// The routines the interrupt descriptor table dispatches to.
#[derive(Clone, Copy, Debug, PartialEq, Eq, Structural)]
pub enum Handler {
    Breakpoint,
    DoubleFault,
    PageFault,
    Timer,
    Keyboard,
}

/// The handler installed at vector `v`, if any.
pub open spec fn handler_at(v: int) -> Option<Handler> {
    if v == BREAKPOINT_VECTOR {
        Some(Handler::Breakpoint)
    } else if v == DOUBLE_FAULT_VECTOR {
        Some(Handler::DoubleFault)
    } else if v == PAGE_FAULT_VECTOR {
        Some(Handler::PageFault)
    } else if v == PIC_1_OFFSET {
        Some(Handler::Timer)
    } else if v == PIC_1_OFFSET + 1 {
        Some(Handler::Keyboard)
    } else {
        None
    }
}

/// Lays out the interrupt descriptor table: one slot per vector, holding the handler
/// installed there.
pub fn init_idt() -> (r: Vec<Option<Handler>>)
    ensures
        r@.len() == IDT_ENTRIES,
        forall|v: int| 0 <= v < IDT_ENTRIES ==> #[trigger] r@[v] == handler_at(v),
{
    let mut table: Vec<Option<Handler>> = Vec::new();
    let mut v: usize = 0;
    let timer = InterruptIndex::Timer.as_usize();
    let keyboard = InterruptIndex::Keyboard.as_usize();
    while v < IDT_ENTRIES
        invariant
            table@.len() == v,
            v <= IDT_ENTRIES,
            timer == PIC_1_OFFSET,
            keyboard == PIC_1_OFFSET + 1,
            forall|w: int| 0 <= w < v ==> #[trigger] table@[w] == handler_at(w),
        decreases IDT_ENTRIES - v,
    {
        let h = if v == BREAKPOINT_VECTOR {
            Some(Handler::Breakpoint)
        } else if v == DOUBLE_FAULT_VECTOR {
            Some(Handler::DoubleFault)
        } else if v == PAGE_FAULT_VECTOR {
            Some(Handler::PageFault)
        } else if v == timer {
            Some(Handler::Timer)
        } else if v == keyboard {
            Some(Handler::Keyboard)
        } else {
            None
        };
        table.push(h);
        v = v + 1;
    }
    table
}

} // verus!
