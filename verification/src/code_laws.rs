//! What holds of the calls that are found in the code.
use crate::call_graph::{
    code_at, is_auipc, is_c_jal, is_c_jalr, is_jal, is_jalr, law_calls_are_complete,
};
use crate::riscv::{cj_offset, field, i_offset, j_offset, wrap};
use crate::scan::ends_within;
use crate::unwind_data::{CodeContents, UnwindData};
use vstd::prelude::*;

verus! {

/// Addresses wrap around in the 32-bit address space.
pub proof fn law_addresses_wrap_around(address: int, turns: int)
    requires
        0 <= address <= 0xffff_ffff,
    ensures
        wrap(address + turns * 0x1_0000_0000) == address,
{
    vstd::arithmetic::div_mod::lemma_mod_multiples_vanish(turns, address, 0x1_0000_0000);
    vstd::arithmetic::mul::lemma_mul_is_commutative(turns, 0x1_0000_0000);
}

/// The J-type instruction with an offset and the given register and opcode bits.
pub open spec fn encode_j(offset: i32, low: u32) -> u32 {
    let imm = offset as u32;
    ((imm >> 20) & 1) << 31 | ((imm >> 1) & 0x3ff) << 21 | ((imm >> 11) & 1) << 20 | ((imm >> 12)
        & 0xff) << 12 | (low & 0xfff)
}

/// The I-type instruction with an offset and the given register and opcode bits.
pub open spec fn encode_i(offset: i32, low: u32) -> u32 {
    ((offset as u32) & 0xfff) << 20 | (low & 0xf_ffff)
}

/// The CJ-type instruction with an offset and the given opcode bits.
pub open spec fn encode_cj(offset: i32, high: u32, low: u32) -> u32 {
    let imm = offset as u32;
    ((imm >> 11) & 1) << 12 | ((imm >> 4) & 1) << 11 | ((imm >> 8) & 3) << 9 | ((imm >> 10) & 1)
        << 8 | ((imm >> 6) & 1) << 7 | ((imm >> 7) & 1) << 6 | ((imm >> 1) & 7) << 3 | ((imm >> 5)
        & 1) << 2 | (high & 7) << 13 | (low & 3)
}

/// Decoding the immediate of a J-type instruction gives the offset that was encoded.
pub proof fn law_j_offset_is_decoded(offset: i32, low: u32)
    requires
        -0x10_0000 <= offset < 0x10_0000,
        offset % 2 == 0,
    ensures
        j_offset(encode_j(offset, low)) == offset,
{
    let insn = encode_j(offset, low);
    assert(field(insn, 21, 0x3ff) * 2 + field(insn, 20, 1) * 0x800 + field(insn, 12, 0xff) * 0x1000
        - field(insn, 31, 1) * 0x10_0000 == offset) by (bit_vector)
        requires
            insn == encode_j(offset, low),
            -0x10_0000 <= offset < 0x10_0000,
            offset % 2 == 0,
    ;
}

/// Decoding the immediate of an I-type instruction gives the offset that was encoded.
pub proof fn law_i_offset_is_decoded(offset: i32, low: u32)
    requires
        -0x800 <= offset < 0x800,
    ensures
        i_offset(encode_i(offset, low)) == offset,
{
    let insn = encode_i(offset, low);
    assert(field(insn, 20, 0x7ff) - field(insn, 31, 1) * 0x800 == offset) by (bit_vector)
        requires
            insn == encode_i(offset, low),
            -0x800 <= offset < 0x800,
    ;
}

/// Decoding the immediate of a CJ-type instruction gives the offset that was encoded.
pub proof fn law_cj_offset_is_decoded(offset: i32, high: u32, low: u32)
    requires
        -0x800 <= offset < 0x800,
        offset % 2 == 0,
    ensures
        cj_offset(encode_cj(offset, high, low)) == offset,
{
    let insn = encode_cj(offset, high, low);
    assert(field(insn, 3, 7) * 2 + field(insn, 11, 1) * 0x10 + field(insn, 2, 1) * 0x20 + field(
        insn,
        7,
        1,
    ) * 0x40 + field(insn, 6, 1) * 0x80 + field(insn, 9, 3) * 0x100 + field(insn, 8, 1) * 0x400
        - field(insn, 12, 1) * 0x800 == offset) by (bit_vector)
        requires
            insn == encode_cj(offset, high, low),
            -0x800 <= offset < 0x800,
            offset % 2 == 0,
    ;
}

/// The major opcode of a 32-bit instruction.
pub open spec fn opcode(insn: u32) -> u32 {
    insn & 0x7f
}

/// The destination register of a 32-bit instruction.
pub open spec fn destination(insn: u32) -> u32 {
    (insn >> 7) & 0x1f
}

/// The minor opcode of a 32-bit instruction.
pub open spec fn minor_opcode(insn: u32) -> u32 {
    (insn >> 12) & 7
}

/// The source register of a 32-bit instruction.
pub open spec fn source(insn: u32) -> u32 {
    (insn >> 15) & 0x1f
}

/// A 32-bit call is a `jal` or a `jalr` (its minor opcode is zero) that stores the return
/// address in `ra`. A `jal` goes to its offset from the instruction. A `jalr` goes through
/// a register, unless that is the `ra` which an `auipc` right before it set.
pub proof fn law_long_calls_are_jumps_that_link(data: UnwindData, return_address: u32)
    ensures
        ({
            let pc = wrap(return_address - 4);
            match data.word(pc) {
                None => data.long_call_before(return_address) is None,
                Some(insn) => {
                    let jal = opcode(insn) == 0x6f && destination(insn) == 1;
                    let jalr = opcode(insn) == 0x67 && destination(insn) == 1 && minor_opcode(insn)
                        == 0;
                    match data.long_call_before(return_address) {
                        None => !jal && !jalr,
                        Some(call) => {
                            &&& jal ==> call.target == Some(wrap(pc + j_offset(insn)))
                            &&& jalr ==> call.target == (match data.word(wrap(pc - 4)) {
                                Some(auipc) => if source(insn) == 1 && opcode(auipc) == 0x17
                                    && destination(auipc) == 1 {
                                    Some(wrap(pc - 4 + (auipc & 0xffff_f000) + i_offset(insn)))
                                } else {
                                    None
                                },
                                None => None,
                            })
                            &&& jal || jalr
                        },
                    }
                },
            }
        }),
{
    let pc = wrap(return_address - 4);
    if let Some(insn) = data.word(pc) {
        assert(is_jal(insn) == (opcode(insn) == 0x6f && destination(insn) == 1)) by {
            assert((insn & 0xfff == 0x0ef) == (insn & 0x7f == 0x6f && (insn >> 7) & 0x1f == 1))
                by (bit_vector);
        }
        assert(is_jalr(insn) == (opcode(insn) == 0x67 && destination(insn) == 1 && minor_opcode(
            insn,
        ) == 0)) by {
            assert((insn & 0x7fff == 0x00e7) == (insn & 0x7f == 0x67 && (insn >> 7) & 0x1f == 1 && (
            insn >> 12) & 7 == 0)) by (bit_vector);
        }
        if let Some(auipc) = data.word(wrap(pc - 4)) {
            assert(is_auipc(auipc) == (opcode(auipc) == 0x17 && destination(auipc) == 1)) by {
                assert((auipc & 0xfff == 0x097) == (auipc & 0x7f == 0x17 && (auipc >> 7) & 0x1f
                    == 1)) by (bit_vector);
            }
        }
    }
}

/// A 16-bit call is a `c.jal`, which goes to its offset from the instruction, or a
/// `c.jalr`, which goes through a register other than `x0`.
pub proof fn law_short_calls_are_jumps_that_link(data: UnwindData, return_address: u32)
    ensures
        ({
            let pc = wrap(return_address - 2);
            match data.halfword(pc) {
                None => data.short_call_before(return_address) is None,
                Some(insn) => {
                    let quadrant = insn & 3;
                    let function = (insn >> 13) & 7;
                    let c_jal = quadrant == 1 && function == 1;
                    let c_jalr = quadrant == 2 && function == 4 && (insn >> 12) & 1 == 1 && (insn
                        >> 7) & 0x1f != 0 && (insn >> 2) & 0x1f == 0;
                    match data.short_call_before(return_address) {
                        None => !c_jal && !c_jalr,
                        Some(call) => {
                            &&& c_jal ==> call.target == Some(wrap(pc + cj_offset(insn as u32)))
                            &&& c_jalr ==> call.target is None
                            &&& c_jal || c_jalr
                        },
                    }
                },
            }
        }),
{
    let pc = wrap(return_address - 2);
    if let Some(insn) = data.halfword(pc) {
        assert(is_c_jal(insn) == (insn & 3 == 1 && (insn >> 13) & 7 == 1)) by {
            assert((insn & 0xe003 == 0x2001) == (insn & 3 == 1 && (insn >> 13) & 7 == 1))
                by (bit_vector);
        }
        assert(is_c_jalr(insn) == (insn & 3 == 2 && (insn >> 13) & 7 == 4 && (insn >> 12) & 1 == 1
            && (insn >> 7) & 0x1f != 0 && (insn >> 2) & 0x1f == 0)) by {
            assert((insn & 0xf07f == 0x9002 && (insn >> 7) & 0x1f != 0) == (insn & 3 == 2 && (insn
                >> 13) & 7 == 4 && (insn >> 12) & 1 == 1 && (insn >> 7) & 0x1f != 0 && (insn >> 2)
                & 0x1f == 0)) by (bit_vector);
        }
    }
}

/// What ends right before a return address is a 32-bit call if it can be read as one, else
/// a 16-bit call.
pub proof fn law_long_calls_come_first(data: UnwindData, return_address: u32)
    ensures
        data.long_call_before(return_address) is Some ==> data.call_before(return_address)
            == data.long_call_before(return_address),
        data.long_call_before(return_address) is None ==> data.call_before(return_address)
            == data.short_call_before(return_address),
{
    reveal(UnwindData::call_before);
}

/// Whether a block of code holds `n` bytes at `addr`.
pub open spec fn has_code(block: CodeContents, addr: u32, n: nat) -> bool {
    block.start <= addr && addr + n <= block.start + block.bytes.len()
}

/// Code is read from the first block that holds all of it.
pub proof fn law_code_is_read_from_first_block(
    code: Seq<CodeContents>,
    addr: u32,
    n: nat,
    k: int,
)
    requires
        0 <= k <= code.len(),
        forall|i: int| 0 <= i < k ==> !has_code(#[trigger] code[i], addr, n),
        k < code.len() ==> has_code(code[k], addr, n),
    ensures
        k == code.len() ==> code_at(code, addr, n) is None,
        k < code.len() ==> (code_at(code, addr, n) matches Some(bytes) && bytes.len() == n && (
        forall|i: int|
            0 <= i < n ==> #[trigger] bytes[i] == code[k].bytes[addr - code[k].start + i])),
    decreases code.len(),
{
    if code.len() > 0 && k > 0 {
        let rest = code.drop_first();
        assert(!has_code(code[0], addr, n));
        assert forall|i: int| 0 <= i < k - 1 implies !has_code(#[trigger] rest[i], addr, n) by {
            assert(rest[i] == code[i + 1]);
        }
        law_code_is_read_from_first_block(rest, addr, n, k - 1);
    }
}

/// Code is little-endian.
#[verifier::rlimit(40)]
#[verifier::spinoff_prover]
pub proof fn law_code_is_little_endian(data: UnwindData, addr: u32)
    ensures
        data.halfword(addr) is Some == code_at(data.code, addr, 2) is Some,
        data.word(addr) is Some == code_at(data.code, addr, 4) is Some,
        code_at(data.code, addr, 2) matches Some(bytes) ==> bytes.len() == 2 ==> (data.halfword(
            addr,
        ) matches Some(insn) && insn % 0x100 == bytes[0] && insn / 0x100 == bytes[1]),
        code_at(data.code, addr, 4) matches Some(bytes) ==> bytes.len() == 4 ==> (data.word(
            addr,
        ) matches Some(insn) && insn % 0x100 == bytes[0] && insn / 0x100 % 0x100 == bytes[1] && insn
            / 0x1_0000 % 0x100 == bytes[2] && insn / 0x100_0000 == bytes[3]),
{
}

/// The calls in a code range are that of its first instruction, if it is one, and those of
/// the rest: a 32-bit instruction is one that ends with two set bits, and all others are
/// 16-bit instructions. There are none in a range that is empty or whose code isn't known.
pub proof fn law_calls_are_listed_in_order(data: UnwindData, start: u32, end: u32, n: nat)
    requires
        ends_within(data.next_insn(end), start, n),
    ensures
        start >= end || data.halfword(start) is None ==> data.calls(start, end).len() == 0,
        start < end ==> (data.halfword(start) matches Some(insn) ==> {
            let next = wrap(
                start + if insn % 4 == 3 {
                    4int
                } else {
                    2int
                },
            );
            let call = if insn % 4 == 3 {
                data.long_call_before(next)
            } else {
                data.short_call_before(next)
            };
            data.calls(start, end) == (match call {
                Some(call) => seq![(next, call.target)],
                None => seq![],
            }) + data.calls(next, end)
        }),
{
    law_calls_are_complete(data, start, end, n);
    reveal(UnwindData::call_of);
    if let Some(insn) = data.halfword(start) {
        assert((insn & 3 == 3) == (insn % 4 == 3)) by (bit_vector);
        if start < end {
            let next = (data.next_insn(end))(start)->0;
            law_calls_are_complete(data, next, end, (n - 1) as nat);
            assert(data.calls(start, end) =~= (match data.call_of(insn, next) {
                Some(call) => seq![(next, call.target)],
                None => seq![],
            }) + data.calls(next, end));
        }
    }
}

} // verus!
