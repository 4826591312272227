use espmonitor::riscv::{cj_immediate, i_immediate, j_immediate, offset_address};

#[test]
fn immediates_of_jal() {
    assert_eq!(j_immediate(0x008000ef), 8);
    assert_eq!(j_immediate(0xffdff0ef), -4);
    assert_eq!(j_immediate(0x001000ef), 0x800);
    assert_eq!(j_immediate(0x000010ef), 0x1000);
    assert_eq!(j_immediate(0x7ffff0ef), 0xffffe);
    assert_eq!(j_immediate(0x800000ef), -0x100000);
}

#[test]
fn immediates_of_compressed_jal() {
    assert_eq!(cj_immediate(0x2001), 0);
    assert_eq!(cj_immediate(0x2009), 2);
    assert_eq!(cj_immediate(0x2005), 0x20);
    assert_eq!(cj_immediate(0x2801), 0x10);
    assert_eq!(cj_immediate(0x2081), 0x40);
    assert_eq!(cj_immediate(0x2041), 0x80);
    assert_eq!(cj_immediate(0x2201), 0x100);
    assert_eq!(cj_immediate(0x2401), 0x200);
    assert_eq!(cj_immediate(0x2101), 0x400);
    assert_eq!(cj_immediate(0x3001), -0x800);
    assert_eq!(cj_immediate(0x3ffd), -2);
}

#[test]
fn immediates_of_jalr() {
    assert_eq!(i_immediate(0x004080e7), 4);
    assert_eq!(i_immediate(0xffc080e7), -4);
    assert_eq!(i_immediate(0x800080e7), -2048);
}

#[test]
fn addresses_wrap_around() {
    assert_eq!(offset_address(0x42000000, -4), 0x41fffffc);
    assert_eq!(offset_address(2, -4), 0xfffffffe);
    assert_eq!(offset_address(0xfffffffc, 8), 4);
    assert_eq!(offset_address(1, 0x1_0000_0001), 2);
}
