//! Calls between the functions of the program that is unwound.
use crate::cfi_table::CfiTable;
use crate::registers::REG_RA;
use crate::riscv::{
    cj_immediate, cj_offset, field, i_immediate, i_offset, j_immediate, j_offset, offset_address,
    wrap,
};
use crate::scan::{ends_within, law_walks_end_soon_or_never, lemma_more_steps, ADDRESS_COUNT};
use crate::unwind_data::{code_contents, CodeContents, UnwindData, Unwinder};
use vstd::prelude::*;

verus! {

/// A call instruction, with its target unless it goes through a register.
#[derive(Clone, Copy, Debug, PartialEq, Eq)]
pub struct Call {
    /// The address of the function that is called.
    pub target: Option<u32>,
}

/// The `n` bytes of code at `addr`, per the first section that holds them.
pub open spec fn code_at(code: Seq<CodeContents>, addr: u32, n: nat) -> Option<Seq<u8>>
    decreases code.len(),
{
    if code.len() == 0 {
        None
    } else if code[0].start <= addr && addr - code[0].start + n <= code[0].bytes.len() {
        Some(code[0].bytes.subrange(addr - code[0].start, addr - code[0].start + n))
    } else {
        code_at(code.drop_first(), addr, n)
    }
}

/// Whether the instruction is `jal ra`.
pub open spec fn is_jal(insn: u32) -> bool {
    insn & 0xfff == 0x0ef
}

/// Whether the instruction is `jalr ra`.
pub open spec fn is_jalr(insn: u32) -> bool {
    insn & 0x7fff == 0x00e7
}

/// Whether the instruction is `auipc ra`.
pub open spec fn is_auipc(insn: u32) -> bool {
    insn & 0xfff == 0x097
}

/// Whether the instruction is `c.jal` (RV32 only).
pub open spec fn is_c_jal(insn: u16) -> bool {
    insn & 0xe003 == 0x2001
}

/// Whether the instruction is `c.jalr`.
pub open spec fn is_c_jalr(insn: u16) -> bool {
    insn & 0xf07f == 0x9002 && (insn >> 7) & 0x1f != 0
}

/// The size of the instruction that begins with the given 16 bits.
pub open spec fn insn_len(insn: u16) -> int {
    if insn & 3 == 3 {
        4
    } else {
        2
    }
}

impl UnwindData {
    /// The 16 bits of code at `addr`.
    pub open spec fn halfword(self, addr: u32) -> Option<u16> {
        match code_at(self.code, addr, 2) {
            Some(bytes) => Some((bytes[0] + bytes[1] * 0x100) as u16),
            None => None,
        }
    }

    /// The 32 bits of code at `addr`.
    pub open spec fn word(self, addr: u32) -> Option<u32> {
        match code_at(self.code, addr, 4) {
            Some(bytes) => Some(
                (bytes[0] + bytes[1] * 0x100 + bytes[2] * 0x1_0000 + bytes[3] * 0x100_0000) as u32,
            ),
            None => None,
        }
    }

    /// The 32-bit call instruction right before `return_address`.
    pub open spec fn long_call_before(self, return_address: u32) -> Option<Call> {
        let pc = wrap(return_address - 4);
        match self.word(pc) {
            Some(insn) if is_jal(insn) => Some(Call { target: Some(wrap(pc + j_offset(insn))) }),
            Some(insn) if is_jalr(insn) => Some(Call { target: self.far_target(pc, insn) }),
            _ => None,
        }
    }

    /// The target of the `jalr ra` instruction at `pc`. `auipc ra, hi` +
    /// `jalr ra, lo(ra)` is how far calls are made; anything else is a call
    /// through a register.
    pub open spec fn far_target(self, pc: u32, insn: u32) -> Option<u32> {
        match self.word(wrap(pc - 4)) {
            Some(auipc) if field(insn, 15, 0x1f) == REG_RA && is_auipc(auipc) => Some(
                wrap(pc - 4 + (auipc & 0xffff_f000) + i_offset(insn)),
            ),
            _ => None,
        }
    }

    /// The 16-bit call instruction right before `return_address`.
    pub open spec fn short_call_before(self, return_address: u32) -> Option<Call> {
        let pc = wrap(return_address - 2);
        match self.halfword(pc) {
            Some(insn) if is_c_jal(insn) => Some(
                Call { target: Some(wrap(pc + cj_offset(insn as u32))) },
            ),
            Some(insn) if is_c_jalr(insn) => Some(Call { target: None }),
            _ => None,
        }
    }

    /// The call instruction ending right before `return_address`, if there is
    /// one.
    #[verifier::opaque]
    pub open spec fn call_before(self, return_address: u32) -> Option<Call> {
        match self.long_call_before(return_address) {
            Some(call) => Some(call),
            None => self.short_call_before(return_address),
        }
    }

    /// The instruction that begins with `insn` and ends right before
    /// `return_address`, if it is a call.
    #[verifier::opaque]
    pub open spec fn call_of(self, insn: u16, return_address: u32) -> Option<Call> {
        if insn_len(insn) == 4 {
            self.long_call_before(return_address)
        } else {
            self.short_call_before(return_address)
        }
    }

    /// The calls among the next `steps` instructions from `pc` up to `end`.
    pub open spec fn calls_from(self, pc: u32, end: u32, steps: nat) -> Seq<(u32, Option<u32>)>
        decreases steps,
    {
        match self.halfword(pc) {
            Some(insn) if pc < end && steps > 0 => {
                let next = wrap(pc + insn_len(insn));
                let rest = self.calls_from(next, end, (steps - 1) as nat);
                match self.call_of(insn, next) {
                    Some(call) => seq![(next, call.target)] + rest,
                    None => rest,
                }
            },
            _ => seq![],
        }
    }

    /// The calls in a code range, as (return address, target).
    pub open spec fn calls(self, start: u32, end: u32) -> Seq<(u32, Option<u32>)> {
        self.calls_from(start, end, ADDRESS_COUNT as nat)
    }

    /// A call in a chain: its return address and the (stack pointer based) CFA
    /// offset of the calling function at that point.
    pub open spec fn link(self, return_address: u32) -> Option<(u32, u32)> {
        match (self.rows)(wrap(return_address - 1) as u64) {
            Some(row) => match row.sp_cfa_offset {
                Some(offset) => Some((return_address, wrap(offset as int))),
                None => None,
            },
            None => None,
        }
    }

    /// A chain of calls leading from a code range to `target`: either directly,
    /// or through up to `depth` intermediate functions which don't save `ra`.
    pub open spec fn call_chain(
        self,
        start: u32,
        end: u32,
        target: u32,
        depth: nat,
    ) -> Option<Seq<(u32, u32)>>
        decreases depth, 0nat,
    {
        let calls = self.calls(start, end);
        match direct_call(calls, target) {
            Some(return_address) => match self.link(return_address) {
                Some(link) => Some(seq![link]),
                None => None,
            },
            None => if depth == 0 {
                None
            } else {
                self.indirect_chain(calls, target, (depth - 1) as nat)
            },
        }
    }

    /// A chain of calls to `target` that begins with the first of the given
    /// calls for which there is one. Only calls into functions which never save
    /// `ra` are followed: those are the never-returning wrappers which lose
    /// return addresses, and they are small, which keeps the search cheap.
    pub open spec fn indirect_chain(
        self,
        calls: Seq<(u32, Option<u32>)>,
        target: u32,
        depth: nat,
    ) -> Option<Seq<(u32, u32)>>
        decreases depth, calls.len() + 1,
    {
        if calls.len() == 0 {
            None
        } else {
            let chain = match (calls[0].1, self.link(calls[0].0)) {
                (Some(callee), Some(link)) => match (self.rows)(callee as u64) {
                    Some(row) if !row.function_saves_ra => match self.call_chain(
                        row.function_start,
                        row.function_end,
                        target,
                        depth,
                    ) {
                        Some(chain) => Some(seq![link] + chain),
                        None => None,
                    },
                    _ => None,
                },
                _ => None,
            };
            match chain {
                Some(chain) => Some(chain),
                None => self.indirect_chain(calls.drop_first(), target, depth),
            }
        }
    }
}

/// The return address of the first of the calls that goes to `target`.
pub open spec fn direct_call(calls: Seq<(u32, Option<u32>)>, target: u32) -> Option<u32>
    decreases calls.len(),
{
    if calls.len() == 0 {
        None
    } else if calls[0].1 == Some(target) {
        Some(calls[0].0)
    } else {
        direct_call(calls.drop_first(), target)
    }
}

impl<'a, T: CfiTable> Unwinder<'a, T> {
    /// Reads `n` bytes of code at `addr`.
    fn code(&self, addr: u32, n: usize) -> (bytes: Option<&[u8]>)
        ensures
            code_at(self@.code, addr, n as nat) == (match bytes {
                Some(bytes) => Some(bytes@),
                None => None,
            }),
            bytes matches Some(b) ==> b@.len() == n,
    {
        let at: u64 = addr as u64;
        let ghost code = self@.code;
        let mut i: usize = 0;
        assert(code.skip(0) =~= code);
        while i < self.code.len()
            invariant
                0 <= i <= self.code@.len(),
                at == addr,
                code == code_contents(self.code@),
                code_at(code, addr, n as nat) == code_at(code.skip(i as int), addr, n as nat),
            decreases self.code@.len() - i,
        {
            assert(code.skip(i as int).drop_first() =~= code.skip(i + 1));
            let block = self.code[i];
            assert(code.skip(i as int)[0] == block@);
            if block.start <= at && at - block.start <= block.bytes.len() as u64 {
                let offset: usize = (at - block.start) as usize;
                if n <= block.bytes.len() - offset {
                    return Some(vstd::slice::slice_subrange(block.bytes, offset, offset + n));
                }
            }
            i += 1;
        }
        None
    }

    /// Reads 16 bits of code at `addr`.
    fn halfword(&self, addr: u32) -> (insn: Option<u16>)
        ensures
            insn == self@.halfword(addr),
    {
        let Some(bytes) = self.code(addr, 2) else {
            return None;
        };
        Some(bytes[0] as u16 + bytes[1] as u16 * 0x100)
    }

    /// Reads 32 bits of code at `addr`.
    fn word(&self, addr: u32) -> (insn: Option<u32>)
        ensures
            insn == self@.word(addr),
    {
        let Some(bytes) = self.code(addr, 4) else {
            return None;
        };
        Some(
            bytes[0] as u32 + bytes[1] as u32 * 0x100 + bytes[2] as u32 * 0x1_0000 + bytes[3] as u32
                * 0x100_0000,
        )
    }

    /// Returns the target of the `jalr ra` instruction at `pc`, unless it is a
    /// call through a register.
    fn far_target(&self, pc: u32, insn: u32) -> (target: Option<u32>)
        ensures
            target == self@.far_target(pc, insn),
    {
        let rs1: u32 = (insn >> 15) & 0x1f;
        let auipc_pc = pc.wrapping_sub(4);
        let Some(auipc) = self.word(auipc_pc) else {
            return None;
        };
        if rs1 != REG_RA as u32 || auipc & 0xfff != 0x097 {
            return None;
        }
        let upper = auipc_pc.wrapping_add(auipc & 0xffff_f000);
        Some(offset_address(upper, i_immediate(insn) as i64))
    }

    /// Returns the 32-bit `jal ra` or `jalr ra` right before `return_address`.
    fn long_call_before(&self, return_address: u32) -> (call: Option<Call>)
        ensures
            call == self@.long_call_before(return_address),
    {
        let pc = return_address.wrapping_sub(4);
        let Some(insn) = self.word(pc) else {
            return None;
        };
        if insn & 0xfff == 0x0ef {
            return Some(Call { target: Some(offset_address(pc, j_immediate(insn) as i64)) });
        }
        if insn & 0x7fff == 0x00e7 {
            return Some(Call { target: self.far_target(pc, insn) });
        }
        None
    }

    /// Returns the 16-bit `c.jal` (RV32 only) or `c.jalr` right before
    /// `return_address`.
    fn short_call_before(&self, return_address: u32) -> (call: Option<Call>)
        ensures
            call == self@.short_call_before(return_address),
    {
        let pc = return_address.wrapping_sub(2);
        let Some(insn) = self.halfword(pc) else {
            return None;
        };
        if insn & 0xe003 == 0x2001 {
            return Some(Call { target: Some(offset_address(pc, cj_immediate(insn) as i64)) });
        }
        if insn & 0xf07f == 0x9002 && (insn >> 7) & 0x1f != 0 {
            return Some(Call { target: None });
        }
        None
    }

    /// Returns the call instruction ending right before `return_address`, if
    /// there is one.
    pub fn call_before(&self, return_address: u32) -> (call: Option<Call>)
        ensures
            call == self@.call_before(return_address),
    {
        proof {
            reveal(UnwindData::call_before);
        }
        match self.long_call_before(return_address) {
            Some(call) => Some(call),
            None => self.short_call_before(return_address),
        }
    }

    /// Returns the instruction that begins with `insn` and ends right before
    /// `return_address`, if it is a call.
    fn call_of(&self, insn: u16, return_address: u32) -> (call: Option<Call>)
        ensures
            call == self@.call_of(insn, return_address),
    {
        proof {
            reveal(UnwindData::call_of);
        }
        if insn & 3 == 3 {
            self.long_call_before(return_address)
        } else {
            self.short_call_before(return_address)
        }
    }

    /// Lists the calls in the given code range as (return address, target).
    ///
    /// There are only so many addresses: a scan that hasn't ended after that
    /// many instructions goes round in circles, and is given up.
    #[verifier::rlimit(40)]
    pub fn calls(&self, start: u32, end: u32) -> (calls: Vec<(u32, Option<u32>)>)
        ensures
            calls@ == self@.calls(start, end),
    {
        let ghost data = self@;
        let ghost all = data.calls(start, end);
        let mut calls: Vec<(u32, Option<u32>)> = Vec::new();
        let mut pc: u32 = start;
        let mut steps: u64 = ADDRESS_COUNT;
        assert(calls@ + all =~= all);
        while pc < end && steps > 0
            invariant_except_break
                data == self@,
                calls@ + data.calls_from(pc, end, steps as nat) == all,
            ensures
                calls@ == all,
            decreases steps,
        {
            let Some(insn) = self.halfword(pc) else {
                assert(data.calls_from(pc, end, steps as nat) =~= seq![]);
                assert(calls@ + seq![] =~= calls@);
                break;
            };
            let len: u32 = if insn & 3 == 3 {
                4
            } else {
                2
            };
            let return_address = pc.wrapping_add(len);
            let ghost rest = data.calls_from(return_address, end, (steps - 1) as nat);
            assert(return_address == wrap(pc + insn_len(insn)));
            if let Some(call) = self.call_of(insn, return_address) {
                let ghost found = (return_address, call.target);
                assert(data.calls_from(pc, end, steps as nat) == seq![found] + rest);
                assert(calls@.push(found) + rest =~= calls@ + (seq![found] + rest));
                calls.push((return_address, call.target));
            } else {
                assert(data.calls_from(pc, end, steps as nat) == rest);
            }
            pc = return_address;
            steps -= 1;
            proof {
                if pc >= end || steps == 0 {
                    assert(rest =~= seq![]);
                    assert(calls@ + rest =~= calls@);
                }
            }
        }
        calls
    }

    /// Returns the call with the given return address as a link of a chain: the
    /// address and the (stack pointer based) CFA offset of the calling function
    /// at that point.
    fn link(&self, return_address: u32) -> (link: Option<(u32, u32)>)
        ensures
            link == self@.link(return_address),
    {
        let Some(row) = self.row(return_address.wrapping_sub(1) as u64) else {
            return None;
        };
        let Some(offset) = row.sp_cfa_offset else {
            return None;
        };
        Some((return_address, offset_address(0, offset)))
    }

    /// Finds a chain of calls leading from the given code range to `target`:
    /// either directly, or through up to `depth` intermediate functions which
    /// don't save `ra` at their call (never-returning wrappers, which is what
    /// loses return addresses in the first place).
    ///
    /// Returns, for each call along the chain starting with the one in the
    /// given range, its return address and the (stack pointer based) CFA
    /// offset of the calling function at that point.
    #[verifier::rlimit(40)]
    pub fn call_chain(&self, start: u32, end: u32, target: u32, depth: usize) -> (chain: Option<
        Vec<(u32, u32)>,
    >)
        ensures
            self@.call_chain(start, end, target, depth as nat) == (match chain {
                Some(chain) => Some(chain@),
                None => None,
            }),
        decreases depth,
    {
        let calls = self.calls(start, end);
        if let Some(return_address) = find_call(&calls, target) {
            let Some(link) = self.link(return_address) else {
                return None;
            };
            let chain = vec![link];
            assert(chain@ =~= seq![link]);
            return Some(chain);
        }
        if depth == 0 {
            return None;
        }
        let mut i: usize = 0;
        assert(calls@.skip(0) =~= calls@);
        while i < calls.len()
            invariant
                0 <= i <= calls@.len(),
                depth > 0,
                self@.call_chain(start, end, target, depth as nat) == self@.indirect_chain(
                    calls@.skip(i as int),
                    target,
                    (depth - 1) as nat,
                ),
            decreases calls@.len() - i,
        {
            let (return_address, callee) = calls[i];
            assert(calls@.skip(i as int).drop_first() =~= calls@.skip(i + 1));
            i += 1;
            let Some(callee) = callee else {
                continue;
            };
            let Some(link) = self.link(return_address) else {
                continue;
            };
            let Some(row) = self.row(callee as u64) else {
                continue;
            };
            if row.function_saves_ra {
                continue;
            }
            let Some(mut chain) = self.call_chain(
                row.function_start,
                row.function_end,
                target,
                depth - 1,
            ) else {
                continue;
            };
            assert(chain@.insert(0, link) =~= seq![link] + chain@);
            chain.insert(0, link);
            return Some(chain);
        }
        None
    }
}

/// Returns the return address of the first of the calls that goes to `target`.
fn find_call(calls: &Vec<(u32, Option<u32>)>, target: u32) -> (return_address: Option<u32>)
    ensures
        return_address == direct_call(calls@, target),
{
    let mut i: usize = 0;
    assert(calls@.skip(0) =~= calls@);
    while i < calls.len()
        invariant
            0 <= i <= calls@.len(),
            direct_call(calls@, target) == direct_call(calls@.skip(i as int), target),
        decreases calls@.len() - i,
    {
        assert(calls@.skip(i as int).drop_first() =~= calls@.skip(i + 1));
        let (return_address, callee) = calls[i];
        if let Some(callee) = callee {
            if callee == target {
                return Some(return_address);
            }
        }
        i += 1;
    }
    None
}

/// A chain of calls goes through at most `depth` intermediate functions.
pub proof fn law_chain_has_few_intermediates(
    data: UnwindData,
    start: u32,
    end: u32,
    target: u32,
    depth: nat,
)
    ensures
        data.call_chain(start, end, target, depth) matches Some(chain) ==> 0 < chain.len()
            <= depth + 1,
    decreases depth, 0nat,
{
    if depth > 0 {
        lemma_indirect_chain(data, data.calls(start, end), target, (depth - 1) as nat);
    }
}

/// A chain of calls that doesn't begin with a call to its target goes through one
/// more function.
proof fn lemma_indirect_chain(
    data: UnwindData,
    calls: Seq<(u32, Option<u32>)>,
    target: u32,
    depth: nat,
)
    ensures
        data.indirect_chain(calls, target, depth) matches Some(chain) ==> 1 < chain.len() <= depth
            + 2,
    decreases depth, calls.len() + 1,
{
    if calls.len() > 0 {
        lemma_indirect_chain(data, calls.drop_first(), target, depth);
        if let Some(callee) = calls[0].1 {
            if let Some(row) = (data.rows)(callee as u64) {
                law_chain_has_few_intermediates(
                    data,
                    row.function_start,
                    row.function_end,
                    target,
                    depth,
                );
            }
        }
    }
}

impl UnwindData {
    /// The address of the instruction after another, while the code up to `end` is
    /// scanned.
    pub open spec fn next_insn(self, end: u32) -> spec_fn(u32) -> Option<u32> {
        |pc: u32|
            match self.halfword(pc) {
                Some(insn) if pc < end => Some(wrap(pc + insn_len(insn))),
                _ => None,
            }
    }
}

/// More steps than a scan takes change nothing.
proof fn lemma_calls_from(data: UnwindData, pc: u32, end: u32, n: nat, m: nat)
    requires
        ends_within(data.next_insn(end), pc, n),
        ends_within(data.next_insn(end), pc, m),
    ensures
        data.calls_from(pc, end, n) == data.calls_from(pc, end, m),
    decreases n,
{
    if let Some(next) = (data.next_insn(end))(pc) {
        lemma_calls_from(data, next, end, (n - 1) as nat, (m - 1) as nat);
    }
}

/// The limit on the number of instructions cuts no scan of a code range short that
/// would end without it.
pub proof fn law_calls_are_complete(data: UnwindData, start: u32, end: u32, n: nat)
    requires
        ends_within(data.next_insn(end), start, n),
    ensures
        data.calls(start, end) == data.calls_from(start, end, n),
{
    law_walks_end_soon_or_never(data.next_insn(end), start, n);
    lemma_more_steps(
        data.next_insn(end),
        start,
        (ADDRESS_COUNT - 1) as nat,
        ADDRESS_COUNT as nat,
    );
    lemma_calls_from(data, start, end, n, ADDRESS_COUNT as nat);
}

} // verus!
