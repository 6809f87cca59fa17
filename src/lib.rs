use vstd::prelude::*;

pub mod align;
pub mod allocator;
pub mod bump;
pub mod interrupts;
pub mod linked_list;
pub mod memory;
pub mod paging;

verus! {

/// Status a test run reports to the emulator when it exits.
#[derive(Clone, Copy, Debug, PartialEq, Eq, Structural)]
pub enum QemuExitCode {
    Success,
    Failed,
}

impl QemuExitCode {
    /// The status value the emulator exits with.
    pub fn code(self) -> (r: u32)
        ensures
            r == match self {
                QemuExitCode::Success => 0x10u32,
                QemuExitCode::Failed => 0x11u32,
            },
    {
        match self {
            QemuExitCode::Success => 0x10,
            QemuExitCode::Failed => 0x11,
        }
    }
}

/// A test case the runner can execute; a failing case panics.
pub trait Testable {
    fn run(&self);
}

/// Runs every test in order and reports success; a failing test never returns here.
pub fn test_runner<T: Testable>(tests: &[T]) -> (r: QemuExitCode)
    ensures
        r == QemuExitCode::Success,
{
    let mut i: usize = 0;
    while i < tests.len()
        invariant
            i <= tests@.len(),
        decreases tests@.len() - i,
    {
        tests[i].run();
        i = i + 1;
    }
    QemuExitCode::Success
}

} // verus!
