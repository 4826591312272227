//! The parts of the RISC-V instruction encoding that calls use.
use vstd::prelude::*;

verus! {

/// The address at `address`, in the 32-bit address space, which wraps around.
pub open spec fn wrap(address: int) -> u32 {
    (address % 0x1_0000_0000) as u32
}

/// The bits of `insn` from `shift` upwards that `mask` selects.
pub open spec fn field(insn: u32, shift: u32, mask: u32) -> u32 {
    (insn >> shift) & mask
}

/// The immediate of a J-type (`jal`) instruction: bits 10:1, 11, 19:12 and the
/// sign bit 20 of the offset.
pub open spec fn j_offset(insn: u32) -> int {
    field(insn, 21, 0x3ff) * 2 + field(insn, 20, 1) * 0x800 + field(insn, 12, 0xff) * 0x1000
        - field(insn, 31, 1) * 0x10_0000
}

/// The immediate of a CJ-type (`c.jal`) instruction: bits 3:1, 4, 5, 6, 7, 9:8,
/// 10 and the sign bit 11 of the offset.
pub open spec fn cj_offset(insn: u32) -> int {
    field(insn, 3, 7) * 2 + field(insn, 11, 1) * 0x10 + field(insn, 2, 1) * 0x20 + field(insn, 7, 1)
        * 0x40 + field(insn, 6, 1) * 0x80 + field(insn, 9, 3) * 0x100 + field(insn, 8, 1) * 0x400
        - field(insn, 12, 1) * 0x800
}

/// The immediate of an I-type (`jalr`) instruction: bits 10:0 and the sign bit
/// 11 of the offset.
pub open spec fn i_offset(insn: u32) -> int {
    field(insn, 20, 0x7ff) - field(insn, 31, 1) * 0x800
}

/// Decodes the immediate of a J-type (`jal`) instruction.
pub fn j_immediate(insn: u32) -> (offset: i32)
    ensures
        offset == j_offset(insn),
{
    let imm: u32 = ((insn >> 31) & 1) << 20 | ((insn >> 21) & 0x3ff) << 1 | ((insn >> 20) & 1) << 11
        | ((insn >> 12) & 0xff) << 12;
    // Sign-extend from 21 bits.
    let offset: i32 = ((imm << 11) as i32) >> 11;
    assert(offset == field(insn, 21, 0x3ff) * 2 + field(insn, 20, 1) * 0x800 + field(insn, 12, 0xff)
        * 0x1000 - field(insn, 31, 1) * 0x10_0000) by (bit_vector)
        requires
            imm == ((insn >> 31) & 1) << 20 | ((insn >> 21) & 0x3ff) << 1 | ((insn >> 20) & 1) << 11
                | ((insn >> 12) & 0xff) << 12,
            offset == ((imm << 11) as i32) >> 11,
    ;
    offset
}

/// Decodes the immediate of a CJ-type (`c.jal`) instruction.
pub fn cj_immediate(insn: u16) -> (offset: i32)
    ensures
        offset == cj_offset(insn as u32),
{
    let insn: u32 = insn as u32;
    let imm: u32 = ((insn >> 12) & 1) << 11 | ((insn >> 11) & 1) << 4 | ((insn >> 9) & 3) << 8 | ((
    insn >> 8) & 1) << 10 | ((insn >> 7) & 1) << 6 | ((insn >> 6) & 1) << 7 | ((insn >> 3) & 7) << 1
        | ((insn >> 2) & 1) << 5;
    // Sign-extend from 12 bits.
    let offset: i32 = ((imm << 20) as i32) >> 20;
    assert(offset == field(insn, 3, 7) * 2 + field(insn, 11, 1) * 0x10 + field(insn, 2, 1) * 0x20
        + field(insn, 7, 1) * 0x40 + field(insn, 6, 1) * 0x80 + field(insn, 9, 3) * 0x100 + field(
        insn,
        8,
        1,
    ) * 0x400 - field(insn, 12, 1) * 0x800) by (bit_vector)
        requires
            imm == ((insn >> 12) & 1) << 11 | ((insn >> 11) & 1) << 4 | ((insn >> 9) & 3) << 8 | ((
            insn >> 8) & 1) << 10 | ((insn >> 7) & 1) << 6 | ((insn >> 6) & 1) << 7 | ((insn >> 3)
                & 7) << 1 | ((insn >> 2) & 1) << 5,
            offset == ((imm << 20) as i32) >> 20,
    ;
    offset
}

/// Decodes the immediate of an I-type (`jalr`) instruction.
pub fn i_immediate(insn: u32) -> (offset: i32)
    ensures
        offset == i_offset(insn),
{
    let offset: i32 = (insn as i32) >> 20;
    assert(offset == field(insn, 20, 0x7ff) - field(insn, 31, 1) * 0x800) by (bit_vector)
        requires
            offset == (insn as i32) >> 20,
    ;
    offset
}

/// Moves `address` by a signed offset, in the 32-bit address space.
pub fn offset_address(address: u32, offset: i64) -> (moved: u32)
    ensures
        moved == wrap(address + offset),
{
    let low: u32 = offset as u32;
    assert((offset as u32) as int == offset as int % 0x1_0000_0000) by {
        lemma_truncate(offset);
    }
    address.wrapping_add(low)
}

/// The low 32 bits of a signed number are its residue modulo 2^32.
pub proof fn lemma_truncate(x: i64)
    ensures
        (x as u32) as int == x as int % 0x1_0000_0000,
{
    assert(x as u32 == x % 0x1_0000_0000) by (bit_vector);
}

} // verus!
