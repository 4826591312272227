use espmonitor::cfi_unwind::Frame;
use espmonitor::registers::{is_callee_saved, Registers, REGISTER_NAMES, REG_COUNT, REG_RA, REG_SP};

#[test]
fn only_the_program_counter_is_known_at_first() {
    let registers = Registers::new(0x42000000);
    assert_eq!(registers.pc, 0x42000000);
    assert!(!registers.pc_is_return_address);
    assert!(!registers.sp_is_placeholder);
    assert_eq!(registers.get(0), Some(0));
    for reg in 1..40 {
        assert_eq!(registers.get(reg), None);
    }
}

#[test]
fn registers_read_back_what_was_written() {
    let mut registers = Registers::new(0);
    registers.set(REG_SP, 0x40815e10);
    registers.set(31, 7);
    registers.set(0, 9);
    registers.set(32, 11);
    assert_eq!(registers.get(REG_SP), Some(0x40815e10));
    assert_eq!(registers.get(31), Some(7));
    assert_eq!(registers.get(0), Some(0));
    assert_eq!(registers.get(32), None);
    assert_eq!(registers.get(REG_RA), None);
    registers.clear(REG_SP);
    registers.clear(33);
    assert_eq!(registers.get(REG_SP), None);
    assert_eq!(registers.get(31), Some(7));
}

#[test]
fn callee_saved_registers() {
    let saved = (0..40).filter(|reg| is_callee_saved(*reg)).collect::<Vec<_>>();
    assert_eq!(
        saved,
        vec![2, 3, 4, 8, 9, 18, 19, 20, 21, 22, 23, 24, 25, 26, 27]
    );
}

#[test]
fn names_follow_the_numbers() {
    assert_eq!(REGISTER_NAMES.len(), REG_COUNT);
    assert_eq!(REGISTER_NAMES[REG_RA as usize], "RA");
    assert_eq!(REGISTER_NAMES[REG_SP as usize], "SP");
    assert_eq!(REGISTER_NAMES[31], "T6");
}

#[test]
fn return_addresses_are_looked_up_in_the_call() {
    let mut frame = Frame {
        pc: 0x42000000,
        sp: 0,
        is_return_address: false,
        recovered: false,
    };
    assert_eq!(frame.lookup_pc(), 0x42000000);
    frame.is_return_address = true;
    assert_eq!(frame.lookup_pc(), 0x41ffffff);
    frame.pc = 0;
    assert_eq!(frame.lookup_pc(), 0xffffffff);
}
