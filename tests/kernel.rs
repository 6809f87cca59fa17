use std::cell::Cell;

use atlas_mem::interrupts::{init_idt, Handler, InterruptIndex, PIC_1_OFFSET, PIC_2_OFFSET};
use atlas_mem::{test_runner, QemuExitCode, Testable};

struct Counting<'a> {
    runs: &'a Cell<u32>,
}

impl Testable for Counting<'_> {
    fn run(&self) {
        self.runs.set(self.runs.get() + 1);
    }
}

#[test]
fn interrupt_vectors() {
    assert_eq!(PIC_1_OFFSET, 32);
    assert_eq!(PIC_2_OFFSET, 40);
    assert_eq!(InterruptIndex::Timer.as_u8(), 32);
    assert_eq!(InterruptIndex::Keyboard.as_u8(), 33);
    assert_eq!(InterruptIndex::Keyboard.as_usize(), 33);
}

#[test]
fn idt_layout() {
    let idt = init_idt();
    assert_eq!(idt.len(), 256);
    assert_eq!(idt[3], Some(Handler::Breakpoint));
    assert_eq!(idt[8], Some(Handler::DoubleFault));
    assert_eq!(idt[14], Some(Handler::PageFault));
    assert_eq!(idt[32], Some(Handler::Timer));
    assert_eq!(idt[33], Some(Handler::Keyboard));
    assert_eq!(idt.iter().filter(|h| h.is_some()).count(), 5);
}

#[test]
fn exit_codes() {
    assert_eq!(QemuExitCode::Success.code(), 0x10);
    assert_eq!(QemuExitCode::Failed.code(), 0x11);
}

#[test]
fn runner_runs_every_test() {
    let runs = Cell::new(0);
    let tests = [Counting { runs: &runs }, Counting { runs: &runs }, Counting { runs: &runs }];
    assert_eq!(test_runner(&tests), QemuExitCode::Success);
    assert_eq!(runs.get(), 3);
}
