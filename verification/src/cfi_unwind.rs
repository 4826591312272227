//! Stack unwinding driven by DWARF call frame information (CFI).
//!
//! Given a snapshot of the CPU registers and a window of stack memory, both as
//! printed by a panic handler, [`Unwinder`] walks the call chain by evaluating
//! the unwind tables of the ELF files it was built from. Since it relies on
//! CFI rather than on frame pointers it works with code built without
//! `-C force-frame-pointers`.
use crate::call_graph::{law_chain_has_few_intermediates, Call};
use crate::cfi_section::{Cfa, Rule};
use crate::cfi_table::{lemma_rules_by_register, rules_by_register, CfiTable, Row, RowRules};
use crate::registers::{
    callee_saved, is_callee_saved, word_at, Memory, RegisterValues, Registers, REG_COUNT, REG_RA,
    REG_SP,
};
use crate::riscv::{offset_address, wrap};
use crate::scan::{ends_within, law_walks_end_soon_or_never, ADDRESS_COUNT};
use crate::unwind_data::{UnwindData, Unwinder};
use vstd::prelude::*;

verus! {

/// How many functions without a saved `ra` may sit between the function which
/// lost the return address and the frame which saved one. Rust's panic path has
/// four; the bound only guards against runaway searches.
pub const MAX_INTERMEDIATE: usize = 8;

/// One frame of the unwound call chain.
#[derive(Clone, Copy, Debug, PartialEq, Eq)]
pub struct Frame {
    /// The address of the executing instruction, or the return address into
    /// the frame's function (see `is_return_address`).
    pub pc: u32,
    /// The stack pointer while the frame's function was executing; zero if it
    /// isn't known, which can only be of the starting frame.
    pub sp: u32,
    /// Whether `pc` is a return address rather than the address of the
    /// executing instruction.
    pub is_return_address: bool,
    /// Whether the frame was reconstructed by scanning the stack, because its
    /// callee didn't save the return address into it (see
    /// [`Stop::ReturnAddressLost`]).
    pub recovered: bool,
}

impl Frame {
    /// The address to use for symbol and line lookups.
    pub open spec fn lookup(self) -> u32 {
        if self.is_return_address {
            wrap(self.pc - 1)
        } else {
            self.pc
        }
    }

    /// The address to use for symbol and line lookups.
    ///
    /// A return address points to the instruction *after* the call, which may
    /// belong to a different source line or even to a different (inlined)
    /// function. Moving it back into the call instruction makes lookups land
    /// on the call itself.
    pub fn lookup_pc(&self) -> (pc: u32)
        ensures
            pc == self.lookup(),
    {
        if self.is_return_address {
            self.pc.wrapping_sub(1)
        } else {
            self.pc
        }
    }
}

/// Why unwinding stopped.
#[derive(Clone, Copy, Debug, PartialEq, Eq)]
pub enum Stop {
    /// The outermost frame was reached: the return address is zero or the
    /// unwind rules mark it as undefined.
    EndOfStack,
    /// The function at the given address didn't save the return address of
    /// its caller (functions which never return may skip that), and the
    /// caller couldn't be reconstructed from the stack.
    ReturnAddressLost(u32),
    /// No unwind information covers the given address.
    NoUnwindInfo(u32),
    /// A value needed for unwinding lives at the given address, which isn't
    /// part of the available memory.
    MemoryUnavailable(u32),
    /// The value of the given register is needed but unknown.
    UnknownRegister(u16),
    /// The unwind rules at the given address use a DWARF feature the unwinder
    /// doesn't support (e.g. DWARF expressions).
    Unsupported(u32),
    /// The frame limit was reached.
    TooManyFrames,
    /// The computed caller frame doesn't sit above the current one on the
    /// stack, which means that the input is corrupt.
    Inconsistent,
}

/// What [`Unwinder::step`] can fail with.
#[derive(Clone, Copy, Debug, PartialEq, Eq)]
pub enum Failure {
    /// The walk can't go on.
    Stop(Stop),
    /// The frame's function didn't save the return address of its caller.
    ReturnAddressLost {
        /// The frame's CFA.
        cfa: u32,
        /// The first address of the frame's function.
        function_start: u32,
    },
}

/// The CFA of a frame.
///
/// A CFA based on another register than the stack pointer (the frame pointer)
/// can only be evaluated if that register holds a known, real address. Otherwise
/// the function's last stack pointer based rule is used, which is right unless
/// the function moved `sp` after setting up the frame pointer (dynamic stack
/// allocation).
pub open spec fn frame_cfa(row: RowRules, registers: RegisterValues, sp: u32) -> Result<u32, Stop> {
    match row.cfa {
        Cfa::RegisterAndOffset { register, offset } => {
            let base = if register == REG_SP || !registers.sp_is_placeholder {
                registers.get(register as int)
            } else {
                None
            };
            match (base, row.sp_cfa_offset) {
                (Some(base), _) => Ok(wrap(base + offset)),
                (None, Some(offset)) => Ok(wrap(sp + offset)),
                (None, None) => Err(Stop::UnknownRegister(register)),
            }
        },
        Cfa::Expression => Err(Stop::Unsupported(registers.pc)),
    }
}

/// The value that register `reg` had in the caller, per its rule.
pub open spec fn rule_value(
    rule: Rule,
    reg: u16,
    registers: RegisterValues,
    cfa: u32,
    words: Map<u32, u32>,
) -> Option<u32> {
    match rule {
        Rule::Undefined => None,
        Rule::SameValue => registers.get(reg as int),
        Rule::Offset(offset) => word_at(words, wrap(cfa + offset)),
        Rule::ValOffset(offset) => Some(wrap(cfa + offset)),
        Rule::Register(other) => registers.get(other as int),
        Rule::Constant(value) => Some(wrap(value as int)),
        Rule::Unsupported => None,
    }
}

/// The registers of the caller of a frame, but for its program counter: those
/// with a rule have the value it gives, the stack pointer is the CFA, those that
/// functions preserve are unchanged, and nothing is known of the others.
pub open spec fn caller_registers(
    rules: Map<u16, Rule>,
    registers: RegisterValues,
    cfa: u32,
    words: Map<u32, u32>,
) -> RegisterValues {
    RegisterValues {
        pc: 0,
        pc_is_return_address: false,
        sp_is_placeholder: registers.sp_is_placeholder,
        regs: Seq::new(
            REG_COUNT as nat,
            |reg: int|
                if reg != REG_RA && rules.dom().contains(reg as u16) {
                    rule_value(rules[reg as u16], reg as u16, registers, cfa, words)
                } else if reg == REG_SP {
                    Some(cfa)
                } else if callee_saved(reg) {
                    registers.get(reg)
                } else {
                    None
                },
        ),
    }
}

/// The value of a register that is needed.
pub open spec fn known_value(registers: RegisterValues, reg: u16) -> Result<u32, Stop> {
    match registers.get(reg as int) {
        Some(value) => Ok(value),
        None => Err(Stop::UnknownRegister(reg)),
    }
}

/// The address that a frame's function returns to, or zero if its unwind rules
/// mark it as the outermost one.
///
/// A function that hasn't (yet) saved `ra` has no rule for it. For the innermost
/// frame the live `ra` is then what is needed. For any other frame `ra` was
/// clobbered by the call to the callee, so the return address is lost.
pub open spec fn frame_return_address(
    row: RowRules,
    registers: RegisterValues,
    cfa: u32,
    words: Map<u32, u32>,
    innermost: bool,
) -> Result<u32, Failure> {
    if !row.rules.dom().contains(REG_RA) && !innermost {
        Err(Failure::ReturnAddressLost { cfa, function_start: row.function_start })
    } else {
        let address = if row.rules.dom().contains(REG_RA) {
            ruled_return_address(row.rules[REG_RA], registers, cfa, words)
        } else {
            known_value(registers, REG_RA)
        };
        match address {
            Ok(address) => Ok(address),
            Err(stop) => Err(Failure::Stop(stop)),
        }
    }
}

/// The address that a frame's function returns to per the rule for `ra`, or zero
/// if that marks it as undefined.
pub open spec fn ruled_return_address(
    rule: Rule,
    registers: RegisterValues,
    cfa: u32,
    words: Map<u32, u32>,
) -> Result<u32, Stop> {
    match rule {
        Rule::Undefined => Ok(0),
        Rule::SameValue => known_value(registers, REG_RA),
        Rule::Offset(offset) => match word_at(words, wrap(cfa + offset)) {
            Some(value) => Ok(value),
            None => Err(Stop::MemoryUnavailable(wrap(cfa + offset))),
        },
        Rule::ValOffset(offset) => Ok(wrap(cfa + offset)),
        Rule::Register(other) => known_value(registers, other),
        Rule::Constant(value) => Ok(wrap(value as int)),
        Rule::Unsupported => Err(Stop::Unsupported(registers.pc)),
    }
}

/// The registers of the caller of a frame whose function has the given unwind
/// rules and whose stack pointer is `sp`.
pub open spec fn step_by_row(
    row: RowRules,
    registers: RegisterValues,
    sp: u32,
    words: Map<u32, u32>,
    innermost: bool,
) -> Result<RegisterValues, Failure> {
    match frame_cfa(row, registers, sp) {
        Err(stop) => Err(Failure::Stop(stop)),
        Ok(cfa) => match frame_return_address(row, registers, cfa, words, innermost) {
            Err(failure) => Err(failure),
            Ok(pc) => if pc != 0 {
                Ok(RegisterValues { pc, ..caller_registers(row.rules, registers, cfa, words) })
            } else {
                Err(Failure::Stop(Stop::EndOfStack))
            },
        },
    }
}

/// The registers of the caller of a frame whose function has no unwind rules.
///
/// The best guess for the innermost frame is that it has no stack frame of its
/// own: a leaf function without CFI, hand-written assembly, or a jump through a
/// bad pointer. Its caller is then where `ra` points, with the stack pointer
/// unchanged. For any other frame there is nothing to go on.
pub open spec fn step_without_row(registers: RegisterValues, innermost: bool) -> Result<
    RegisterValues,
    Failure,
> {
    match registers.get(REG_RA as int) {
        Some(ra) if innermost && ra != 0 => Ok(
            RegisterValues { pc: ra, ..registers.with(REG_RA as int, None) },
        ),
        _ => Err(Failure::Stop(Stop::NoUnwindInfo(registers.pc))),
    }
}

/// The stack pointer of the function that makes call `i` of a chain: the CFA of
/// the function it calls.
pub open spec fn chain_sp(chain: Seq<(u32, u32)>, cfa: u32, i: int) -> u32
    decreases chain.len() - i,
{
    if i + 1 >= chain.len() {
        cfa
    } else {
        wrap(chain_sp(chain, cfa, i + 1) + chain[i + 1].1)
    }
}

/// The frame of the function that makes call `i` of a chain.
pub open spec fn chain_frame(chain: Seq<(u32, u32)>, cfa: u32, i: int) -> Frame {
    Frame {
        pc: chain[i].0,
        sp: chain_sp(chain, cfa, i),
        is_return_address: true,
        recovered: true,
    }
}

/// The frames of the functions that make the calls of a chain, innermost first.
pub open spec fn chain_frames(chain: Seq<(u32, u32)>, cfa: u32) -> Seq<Frame> {
    Seq::new(chain.len(), |k: int| chain_frame(chain, cfa, chain.len() - 1 - k))
}

/// The registers of the caller of a recovered frame, given the return address it
/// saved: those that were saved at known places.
pub open spec fn recovered_registers(
    return_address: u32,
    rules: Map<u16, Rule>,
    cfa: u32,
    words: Map<u32, u32>,
    sp_is_placeholder: bool,
) -> RegisterValues {
    RegisterValues {
        pc: return_address,
        pc_is_return_address: false,
        sp_is_placeholder,
        regs: Seq::new(
            REG_COUNT as nat,
            |reg: int|
                match saved_value(rules, reg as u16, cfa, words) {
                    Some(value) => Some(value),
                    None => if reg == REG_SP {
                        Some(cfa)
                    } else {
                        None
                    },
                },
        ),
    }
}

/// The value of register `reg` that was saved at a known place.
pub open spec fn saved_value(
    rules: Map<u16, Rule>,
    reg: u16,
    cfa: u32,
    words: Map<u32, u32>,
) -> Option<u32> {
    if rules.dom().contains(reg) {
        match rules[reg] {
            Rule::Offset(offset) => word_at(words, wrap(cfa + offset)),
            _ => None,
        }
    } else {
        None
    }
}

impl UnwindData {
    /// The registers of the caller of the frame executing at `lookup_pc`.
    pub open spec fn step(
        self,
        registers: RegisterValues,
        lookup_pc: u32,
        words: Map<u32, u32>,
        innermost: bool,
    ) -> Result<RegisterValues, Failure> {
        match registers.get(REG_SP as int) {
            None => Err(Failure::Stop(Stop::UnknownRegister(REG_SP))),
            Some(sp) => match (self.rows)(lookup_pc as u64) {
                None => step_without_row(registers, innermost),
                Some(row) => step_by_row(row, registers, sp, words, innermost),
            },
        }
    }

    /// The callers that are reconstructed from the return address `word` that
    /// was found on the stack at `addr`: the function that the call before it
    /// targets must itself call the function at `function_start`, whose frame
    /// ends at `cfa` (if need be through other functions which don't save `ra`),
    /// and the frames along that chain of calls must place its saved return
    /// address at `addr`.
    pub open spec fn recover_at(
        self,
        cfa: u32,
        function_start: u32,
        words: Map<u32, u32>,
        sp_is_placeholder: bool,
        addr: u32,
        word: u32,
    ) -> Option<(Seq<Frame>, RegisterValues)> {
        match self.call_before(word) {
            Some(Call { target: Some(caller) }) => match (self.rows)(caller as u64) {
                Some(entry) => match self.call_chain(
                    entry.function_start,
                    entry.function_end,
                    function_start,
                    MAX_INTERMEDIATE as nat,
                ) {
                    Some(chain) => self.recover_chain(
                        cfa,
                        chain,
                        words,
                        sp_is_placeholder,
                        addr,
                        word,
                    ),
                    None => None,
                },
                None => None,
            },
            _ => None,
        }
    }

    /// The callers along a chain of calls, if they place the return address that
    /// the first of them saved at `addr`.
    pub open spec fn recover_chain(
        self,
        cfa: u32,
        chain: Seq<(u32, u32)>,
        words: Map<u32, u32>,
        sp_is_placeholder: bool,
        addr: u32,
        word: u32,
    ) -> Option<(Seq<Frame>, RegisterValues)> {
        let caller_cfa = wrap(chain_sp(chain, cfa, 0) + chain[0].1);
        match (self.rows)(wrap(chain[0].0 - 1) as u64) {
            Some(row) => if row.rules.dom().contains(REG_RA) && (row.rules[REG_RA] matches
                Rule::Offset(offset) && wrap(caller_cfa + offset) == addr) {
                Some(
                    (
                        chain_frames(chain, cfa),
                        recovered_registers(word, row.rules, caller_cfa, words, sp_is_placeholder),
                    ),
                )
            } else {
                None
            },
            None => None,
        }
    }

    /// The callers that are reconstructed from the first of the words on the
    /// stack from `addr` on for which that works.
    pub open spec fn recover_from(
        self,
        cfa: u32,
        function_start: u32,
        words: Map<u32, u32>,
        sp_is_placeholder: bool,
        addr: u32,
        steps: nat,
    ) -> Option<(Seq<Frame>, RegisterValues)>
        decreases steps,
    {
        match word_at(words, addr) {
            Some(word) if steps > 0 => match self.recover_at(
                cfa,
                function_start,
                words,
                sp_is_placeholder,
                addr,
                word,
            ) {
                Some(recovered) => Some(recovered),
                None => self.recover_from(
                    cfa,
                    function_start,
                    words,
                    sp_is_placeholder,
                    wrap(addr + 4),
                    (steps - 1) as nat,
                ),
            },
            _ => None,
        }
    }

    /// The callers of the function starting at `function_start`, whose frame
    /// ends at `cfa`, after that function lost the return address into its
    /// caller: the reconstructed frames (innermost first) and the registers of
    /// the frame above them.
    pub open spec fn recover(
        self,
        cfa: u32,
        function_start: u32,
        words: Map<u32, u32>,
        sp_is_placeholder: bool,
    ) -> Option<(Seq<Frame>, RegisterValues)> {
        self.recover_from(
            cfa,
            function_start,
            words,
            sp_is_placeholder,
            cfa,
            ADDRESS_COUNT as nat,
        )
    }

    /// The caller of the frame `frame`, the last of `frames`: all frames up to
    /// it, and its registers, or why the walk stops.
    pub open spec fn next_frame(
        self,
        registers: RegisterValues,
        words: Map<u32, u32>,
        max_frames: nat,
        frames: Seq<Frame>,
    ) -> (Seq<Frame>, Result<RegisterValues, Stop>) {
        match self.step(registers, frames.last().lookup(), words, frames.len() == 1) {
            Ok(caller) => (frames, Ok(caller)),
            Err(Failure::Stop(stop)) => (frames, Err(stop)),
            Err(Failure::ReturnAddressLost { cfa, function_start }) => match self.recover(
                cfa,
                function_start,
                words,
                registers.sp_is_placeholder,
            ) {
                None => (frames, Err(Stop::ReturnAddressLost(registers.pc))),
                Some((recovered, caller)) => if frames.len() + recovered.len() > max_frames {
                    (frames, Err(Stop::TooManyFrames))
                } else {
                    (frames + recovered, Ok(caller))
                },
            },
        }
    }

    /// The frames from `registers` on, after `frames`, and why the walk stopped.
    pub open spec fn walk(
        self,
        registers: RegisterValues,
        is_return_address: bool,
        words: Map<u32, u32>,
        max_frames: nat,
        frames: Seq<Frame>,
    ) -> (Seq<Frame>, Stop)
        decreases max_frames - frames.len(),
    {
        match registers.get(REG_SP as int) {
            None => (frames, Stop::UnknownRegister(REG_SP)),
            Some(sp) => if frames.len() >= max_frames {
                (frames, Stop::TooManyFrames)
            } else {
                let frame = Frame { pc: registers.pc, sp, is_return_address, recovered: false };
                let (next, caller) = self.next_frame(
                    registers,
                    words,
                    max_frames,
                    frames.push(frame),
                );
                match caller {
                    Err(stop) => (next, stop),
                    Ok(caller) => if goes_down(registers, sp, caller, frames.len() == 0) {
                        (next, Stop::Inconsistent)
                    } else {
                        self.walk(caller, true, words, max_frames, next)
                    },
                }
            },
        }
    }

    /// The frames of the call chain starting at `registers`, innermost first,
    /// and why the walk stopped.
    pub open spec fn unwind(
        self,
        registers: RegisterValues,
        words: Map<u32, u32>,
        max_frames: nat,
    ) -> (Seq<Frame>, Stop) {
        let start = starting_frame(registers);
        if registers.get(REG_SP as int) is None {
            (seq![start], Stop::UnknownRegister(REG_SP))
        } else if max_frames == 0 {
            (seq![start], Stop::TooManyFrames)
        } else {
            self.walk(registers, start.is_return_address, words, max_frames, seq![])
        }
    }
}

/// The frame that unwinding starts at.
pub open spec fn starting_frame(registers: RegisterValues) -> Frame {
    Frame {
        pc: registers.pc,
        sp: match registers.get(REG_SP as int) {
            Some(sp) => sp,
            None => 0,
        },
        is_return_address: registers.pc_is_return_address,
        recovered: false,
    }
}

/// Whether the caller of a frame doesn't sit above it. The stack grows
/// downwards, so a caller's frame is never below its callee's. Equal stack
/// pointers are only fine for the frameless innermost frame. A caller whose stack
/// pointer isn't known must at least be elsewhere in the code.
pub open spec fn goes_down(
    registers: RegisterValues,
    sp: u32,
    caller: RegisterValues,
    innermost: bool,
) -> bool {
    match caller.get(REG_SP as int) {
        Some(caller_sp) => caller_sp < sp || (caller_sp == sp && (!innermost || caller.pc
            == registers.pc)),
        None => caller.pc == registers.pc,
    }
}

/// Checks whether the caller of a frame doesn't sit above it.
fn sits_below(current: &Registers, sp: u32, caller: &Registers, innermost: bool) -> (below: bool)
    ensures
        below == goes_down(current@, sp, caller@, innermost),
{
    match caller.get(REG_SP) {
        Some(caller_sp) => caller_sp < sp || (caller_sp == sp && (!innermost || caller.pc
            == current.pc)),
        None => caller.pc == current.pc,
    }
}

/// Computes the CFA of a frame whose function has the given unwind rules.
pub fn compute_cfa(row: &Row, registers: &Registers, sp: u32) -> (cfa: Result<u32, Stop>)
    ensures
        cfa == frame_cfa(row@, registers@, sp),
{
    match row.cfa {
        Cfa::RegisterAndOffset { register, offset } => {
            let base = if register == REG_SP || !registers.sp_is_placeholder {
                registers.get(register)
            } else {
                None
            };
            match (base, row.sp_cfa_offset) {
                (Some(base), _) => Ok(offset_address(base, offset)),
                (None, Some(offset)) => Ok(offset_address(sp, offset)),
                (None, None) => Err(Stop::UnknownRegister(register)),
            }
        },
        // DWARF expressions.
        Cfa::Expression => Err(Stop::Unsupported(registers.pc)),
    }
}

/// Computes the value that register `reg` had in the caller, per its rule.
pub fn evaluate<M: Memory>(
    rule: Rule,
    reg: u16,
    registers: &Registers,
    cfa: u32,
    memory: &M,
) -> (value: Option<u32>)
    ensures
        value == rule_value(rule, reg, registers@, cfa, memory.words()),
{
    match rule {
        Rule::Undefined => None,
        Rule::SameValue => registers.get(reg),
        Rule::Offset(offset) => memory.read_u32(offset_address(cfa, offset)),
        Rule::ValOffset(offset) => Some(offset_address(cfa, offset)),
        Rule::Register(other) => registers.get(other),
        Rule::Constant(value) => {
            assert(value as u32 == value % 0x1_0000_0000) by (bit_vector);
            Some(value as u32)
        },
        // DWARF expressions and anything else: unknown.
        Rule::Unsupported => None,
    }
}

/// Computes the registers of the caller of a frame, but for its program counter.
#[verifier::rlimit(40)]
fn compute_caller<M: Memory>(row: &Row, registers: &Registers, cfa: u32, memory: &M) -> (caller:
    Registers)
    requires
        row.wf(),
    ensures
        caller@ == caller_registers(row@.rules, registers@, cfa, memory.words()),
{
    let ghost words = memory.words();
    let mut caller = Registers::new(0);
    caller.sp_is_placeholder = registers.sp_is_placeholder;
    let mut reg: u16 = 0;
    while reg < REG_COUNT as u16
        invariant
            reg <= REG_COUNT,
            caller@.pc == 0,
            !caller@.pc_is_return_address,
            caller@.sp_is_placeholder == registers@.sp_is_placeholder,
            caller@.regs.len() == REG_COUNT,
            forall|r: int|
                0 <= r < REG_COUNT ==> (#[trigger] caller@.regs[r]) == if r < reg
                    && callee_saved(r) {
                    registers@.get(r)
                } else {
                    None::<u32>
                },
        decreases REG_COUNT - reg,
    {
        let ghost before = caller@.regs;
        if is_callee_saved(reg) {
            if let Some(value) = registers.get(reg) {
                caller.set(reg, value);
            }
        }
        assert forall|r: int| 0 <= r < REG_COUNT implies (#[trigger] caller@.regs[r]) == if r <= reg
            && callee_saved(r) {
            registers@.get(r)
        } else {
            None::<u32>
        } by {
            assert(r != reg ==> caller@.regs[r] == before[r]);
        }
        reg += 1;
    }
    caller.set(REG_SP, cfa);
    let ghost list = row.registers@;
    let mut i: usize = 0;
    assert(list.take(0) =~= seq![]);
    assert(caller@.regs =~= caller_registers(Map::empty(), registers@, cfa, words).regs);
    while i < row.registers.len()
        invariant
            0 <= i <= row.registers@.len(),
            list == row.registers@,
            words == memory.words(),
            caller@ == caller_registers(
                rules_by_register(list.take(i as int)),
                registers@,
                cfa,
                words,
            ),
        decreases row.registers@.len() - i,
    {
        let (register, rule) = row.registers[i];
        let ghost rules = rules_by_register(list.take(i as int));
        assert(list.take(i + 1).drop_last() =~= list.take(i as int));
        assert(rules_by_register(list.take(i + 1)) == rules.insert(register, rule));
        if register != REG_RA {
            match evaluate(rule, register, registers, cfa, memory) {
                Some(value) => caller.set(register, value),
                None => caller.clear(register),
            }
        }
        i += 1;
        assert(caller@.regs =~= caller_registers(
            rules.insert(register, rule),
            registers@,
            cfa,
            words,
        ).regs);
    }
    assert(list.take(list.len() as int) =~= list);
    caller
}

/// Returns the value of a register that is needed.
fn need(registers: &Registers, reg: u16) -> (value: Result<u32, Stop>)
    ensures
        value == known_value(registers@, reg),
{
    match registers.get(reg) {
        Some(value) => Ok(value),
        None => Err(Stop::UnknownRegister(reg)),
    }
}

/// Computes the address that a frame's function returns to per the rule for `ra`,
/// or zero if that marks it as undefined.
fn apply_return_rule<M: Memory>(rule: Rule, registers: &Registers, cfa: u32, memory: &M) -> (
    return_address: Result<u32, Stop>)
    ensures
        return_address == ruled_return_address(rule, registers@, cfa, memory.words()),
{
    match rule {
        Rule::Undefined => Ok(0),
        Rule::SameValue => need(registers, REG_RA),
        Rule::Offset(offset) => {
            let addr = offset_address(cfa, offset);
            match memory.read_u32(addr) {
                Some(value) => Ok(value),
                None => Err(Stop::MemoryUnavailable(addr)),
            }
        },
        Rule::ValOffset(offset) => Ok(offset_address(cfa, offset)),
        Rule::Register(other) => need(registers, other),
        Rule::Constant(value) => {
            assert(value as u32 == value % 0x1_0000_0000) by (bit_vector);
            Ok(value as u32)
        },
        // DWARF expressions and anything else.
        Rule::Unsupported => Err(Stop::Unsupported(registers.pc)),
    }
}

/// Computes the address that a frame's function returns to, or zero if its unwind
/// rules mark it as the outermost one.
pub fn compute_return_address<M: Memory>(
    row: &Row,
    registers: &Registers,
    cfa: u32,
    memory: &M,
    innermost: bool,
) -> (return_address: Result<u32, Failure>)
    requires
        row.wf(),
    ensures
        return_address == frame_return_address(row@, registers@, cfa, memory.words(), innermost),
{
    let address = match row.rule(REG_RA) {
        Some(rule) => apply_return_rule(rule, registers, cfa, memory),
        None => {
            if !innermost {
                return Err(
                    Failure::ReturnAddressLost { cfa, function_start: row.function_start },
                );
            }
            need(registers, REG_RA)
        },
    };
    match address {
        Ok(address) => Ok(address),
        Err(stop) => Err(Failure::Stop(stop)),
    }
}

/// Computes the registers of the caller of a frame whose function has the given
/// unwind rules and whose stack pointer is `sp`. `innermost` tells whether the
/// frame is the one that was interrupted, i.e. whether the live values of the
/// caller-saved registers (in particular `ra`) are known.
pub fn apply_row<M: Memory>(
    row: &Row,
    registers: &Registers,
    sp: u32,
    memory: &M,
    innermost: bool,
) -> (caller: Result<Registers, Failure>)
    requires
        row.wf(),
    ensures
        step_by_row(row@, registers@, sp, memory.words(), innermost) == (match caller {
            Ok(caller) => Ok(caller@),
            Err(failure) => Err(failure),
        }),
{
    let cfa = match compute_cfa(row, registers, sp) {
        Ok(cfa) => cfa,
        Err(stop) => return Err(Failure::Stop(stop)),
    };
    let mut caller = compute_caller(row, registers, cfa, memory);
    match compute_return_address(row, registers, cfa, memory, innermost) {
        Err(failure) => Err(failure),
        Ok(0) => Err(Failure::Stop(Stop::EndOfStack)),
        Ok(pc) => {
            caller.pc = pc;
            Ok(caller)
        },
    }
}

/// Computes the registers of the caller of a frame whose function has no unwind
/// rules.
pub fn apply_no_row(registers: &Registers, innermost: bool) -> (caller: Result<Registers, Failure>)
    ensures
        step_without_row(registers@, innermost) == (match caller {
            Ok(caller) => Ok(caller@),
            Err(failure) => Err(failure),
        }),
{
    if innermost {
        if let Some(ra) = registers.get(REG_RA) {
            if ra != 0 {
                let mut caller = *registers;
                caller.pc = ra;
                caller.clear(REG_RA);
                return Ok(caller);
            }
        }
    }
    Err(Failure::Stop(Stop::NoUnwindInfo(registers.pc)))
}

impl<'a, T: CfiTable> Unwinder<'a, T> {
    /// Computes the registers of the caller of the frame executing at
    /// `lookup_pc`. `innermost` tells whether the frame is the one that was
    /// interrupted, i.e. whether the live values of the caller-saved registers
    /// (in particular `ra`) are known.
    pub fn step<M: Memory>(
        &self,
        registers: &Registers,
        lookup_pc: u32,
        memory: &M,
        innermost: bool,
    ) -> (caller: Result<Registers, Failure>)
        ensures
            self@.step(registers@, lookup_pc, memory.words(), innermost) == (match caller {
                Ok(caller) => Ok(caller@),
                Err(failure) => Err(failure),
            }),
    {
        let Some(sp) = registers.get(REG_SP) else {
            return Err(Failure::Stop(Stop::UnknownRegister(REG_SP)));
        };
        match self.row(lookup_pc as u64) {
            None => apply_no_row(registers, innermost),
            Some(row) => apply_row(&row, registers, sp, memory, innermost),
        }
    }

    /// Reconstructs the callers of the function starting at `function_start`,
    /// whose frame ends at `cfa`, after that function lost the return address
    /// into its caller (see [`Failure::ReturnAddressLost`]).
    ///
    /// The callers' frames sit right above `cfa`, and the first caller which
    /// saved its own return address did so at the top of its frame. That
    /// address is found by scanning the stack upwards for a word which looks
    /// like a return address, i.e. follows a call. To reject stale words, the
    /// call must target a function which itself calls `function_start` (if
    /// need be through other functions which don't save `ra`), and whose
    /// frame size per its own CFI places its saved return address exactly
    /// where the word was found.
    ///
    /// Returns the reconstructed frames (innermost first) and the registers
    /// of the frame above them.
    ///
    /// There are only so many addresses: a scan that hasn't ended after that
    /// many words goes round in circles, and is given up.
    #[verifier::rlimit(40)]
    pub fn recover<M: Memory>(
        &self,
        cfa: u32,
        function_start: u32,
        memory: &M,
        sp_is_placeholder: bool,
    ) -> (recovered: Option<(Vec<Frame>, Registers)>)
        ensures
            self@.recover(cfa, function_start, memory.words(), sp_is_placeholder) == (
            match recovered {
                Some((frames, registers)) => Some((frames@, registers@)),
                None => None,
            }),
    {
        let ghost data = self@;
        let ghost words = memory.words();
        let mut addr: u32 = cfa;
        let mut steps: u64 = ADDRESS_COUNT;
        while steps > 0
            invariant
                data == self@,
                words == memory.words(),
                data.recover(cfa, function_start, words, sp_is_placeholder) == data.recover_from(
                    cfa,
                    function_start,
                    words,
                    sp_is_placeholder,
                    addr,
                    steps as nat,
                ),
            decreases steps,
        {
            let Some(word) = memory.read_u32(addr) else {
                return None;
            };
            let recovered = self.recover_at(
                cfa,
                function_start,
                memory,
                sp_is_placeholder,
                addr,
                word,
            );
            if recovered.is_some() {
                return recovered;
            }
            addr = addr.wrapping_add(4);
            steps -= 1;
        }
        None
    }

    /// Reconstructs callers from the return address `word` that was found on
    /// the stack at `addr`.
    fn recover_at<M: Memory>(
        &self,
        cfa: u32,
        function_start: u32,
        memory: &M,
        sp_is_placeholder: bool,
        addr: u32,
        word: u32,
    ) -> (recovered: Option<(Vec<Frame>, Registers)>)
        ensures
            self@.recover_at(
                cfa,
                function_start,
                memory.words(),
                sp_is_placeholder,
                addr,
                word,
            ) == (match recovered {
                Some((frames, registers)) => Some((frames@, registers@)),
                None => None,
            }),
    {
        let Some(Call { target: Some(caller_start) }) = self.call_before(word) else {
            return None;
        };
        // The caller has CFI and does call our function...
        let Some(caller_entry) = self.row(caller_start as u64) else {
            return None;
        };
        let Some(chain) = self.call_chain(
            caller_entry.function_start,
            caller_entry.function_end,
            function_start,
            MAX_INTERMEDIATE,
        ) else {
            return None;
        };
        proof {
            law_chain_has_few_intermediates(
                self@,
                caller_entry.function_start,
                caller_entry.function_end,
                function_start,
                MAX_INTERMEDIATE as nat,
            );
        }
        // ... and the frames along the chain, as they are at those calls,
        // place the caller's saved return address at the word.
        let (caller_pc, frame_size) = chain[0];
        let Some(caller_row) = self.row(caller_pc.wrapping_sub(1) as u64) else {
            return None;
        };
        let Some(Rule::Offset(offset)) = caller_row.rule(REG_RA) else {
            return None;
        };
        let (frames, sp) = list_chain(&chain, cfa);
        let caller_cfa = sp.wrapping_add(frame_size);
        if offset_address(caller_cfa, offset) != addr {
            return None;
        }
        Some((frames, read_saved(word, &caller_row, caller_cfa, memory, sp_is_placeholder)))
    }

    /// Walks the call chain starting at `registers`, reading saved values from
    /// `memory`. Returns the frames found (innermost first, always including
    /// the starting frame, even if its stack pointer isn't known or no frames are
    /// asked for) and the reason why the walk stopped.
    #[verifier::rlimit(40)]
    pub fn unwind<M: Memory>(&self, registers: Registers, memory: &M, max_frames: usize) -> (walk: (
        Vec<Frame>,
        Stop,
    ))
        ensures
            (walk.0@, walk.1) == self@.unwind(registers@, memory.words(), max_frames as nat),
            walk.0@.len() >= 1,
            walk.0@[0] == starting_frame(registers@),
    {
        let ghost data = self@;
        let ghost words = memory.words();
        let ghost all = data.unwind(registers@, words, max_frames as nat).0;
        proof {
            law_starting_frame_comes_first(data, registers@, words, max_frames as nat);
        }
        let mut frames: Vec<Frame> = Vec::new();
        let mut is_return_address = registers.pc_is_return_address;
        let start_sp = registers.get(REG_SP);
        if start_sp.is_none() || max_frames == 0 {
            let (sp, stop) = match start_sp {
                Some(sp) => (sp, Stop::TooManyFrames),
                None => (0, Stop::UnknownRegister(REG_SP)),
            };
            frames.push(Frame { pc: registers.pc, sp, is_return_address, recovered: false });
            assert(frames@ =~= seq![starting_frame(registers@)]);
            return (frames, stop);
        }
        let mut current = registers;
        loop
            invariant
                data == self@,
                words == memory.words(),
                frames@.len() <= max_frames,
                all == data.unwind(registers@, words, max_frames as nat).0,
                all.len() >= 1,
                all[0] == starting_frame(registers@),
                data.unwind(registers@, words, max_frames as nat) == data.walk(
                    current@,
                    is_return_address,
                    words,
                    max_frames as nat,
                    frames@,
                ),
            decreases max_frames - frames@.len(),
        {
            let Some(sp) = current.get(REG_SP) else {
                return (frames, Stop::UnknownRegister(REG_SP));
            };
            if frames.len() >= max_frames {
                return (frames, Stop::TooManyFrames);
            }
            let frame = Frame { pc: current.pc, sp, is_return_address, recovered: false };
            let innermost = frames.len() == 0;
            frames.push(frame);
            let caller = match self.step(&current, frame.lookup_pc(), memory, innermost) {
                Ok(caller) => caller,
                Err(Failure::Stop(stop)) => return (frames, stop),
                Err(Failure::ReturnAddressLost { cfa, function_start }) => {
                    let Some((mut recovered, caller)) = self.recover(
                        cfa,
                        function_start,
                        memory,
                        current.sp_is_placeholder,
                    ) else {
                        return (frames, Stop::ReturnAddressLost(current.pc));
                    };
                    if recovered.len() > max_frames - frames.len() {
                        return (frames, Stop::TooManyFrames);
                    }
                    frames.append(&mut recovered);
                    caller
                },
            };
            if sits_below(&current, sp, &caller, innermost) {
                return (frames, Stop::Inconsistent);
            }
            current = caller;
            is_return_address = true;
        }
    }
}

/// Lists the frames of the functions that make the calls of a chain, innermost
/// first, with the stack pointer of the first caller.
fn list_chain(chain: &Vec<(u32, u32)>, cfa: u32) -> (list: (Vec<Frame>, u32))
    requires
        chain@.len() > 0,
    ensures
        list.0@ == chain_frames(chain@, cfa),
        list.1 == chain_sp(chain@, cfa, 0),
{
    let mut frames: Vec<Frame> = Vec::new();
    let mut sp: u32 = cfa;
    let mut i: usize = chain.len() - 1;
    while i > 0
        invariant
            0 <= i < chain@.len(),
            sp == chain_sp(chain@, cfa, i as int),
            frames@ == chain_frames(chain@, cfa).take(chain@.len() - 1 - i),
        decreases i,
    {
        let (return_address, offset) = chain[i];
        let frame = Frame { pc: return_address, sp, is_return_address: true, recovered: true };
        assert(chain_frames(chain@, cfa).take(chain@.len() - i) =~= frames@.push(frame));
        frames.push(frame);
        sp = sp.wrapping_add(offset);
        i -= 1;
    }
    frames.push(Frame { pc: chain[0].0, sp, is_return_address: true, recovered: true });
    assert(frames@ =~= chain_frames(chain@, cfa));
    (frames, sp)
}

/// Reads the registers that a recovered frame saved at known places.
#[verifier::rlimit(40)]
fn read_saved<M: Memory>(
    return_address: u32,
    row: &Row,
    cfa: u32,
    memory: &M,
    sp_is_placeholder: bool,
) -> (registers: Registers)
    requires
        row.wf(),
    ensures
        registers@ == recovered_registers(
            return_address,
            row@.rules,
            cfa,
            memory.words(),
            sp_is_placeholder,
        ),
{
    let ghost words = memory.words();
    let mut registers = Registers::new(return_address);
    registers.sp_is_placeholder = sp_is_placeholder;
    registers.set(REG_SP, cfa);
    let ghost list = row.registers@;
    let mut i: usize = 0;
    assert(list.take(0) =~= seq![]);
    assert(registers@.regs =~= recovered_registers(
        return_address,
        Map::empty(),
        cfa,
        words,
        sp_is_placeholder,
    ).regs);
    while i < row.registers.len()
        invariant
            0 <= i <= row.registers@.len(),
            row.wf(),
            list == row.registers@,
            words == memory.words(),
            registers@ == recovered_registers(
                return_address,
                rules_by_register(list.take(i as int)),
                cfa,
                words,
                sp_is_placeholder,
            ),
        decreases row.registers@.len() - i,
    {
        let (register, rule) = row.registers[i];
        let ghost rules = rules_by_register(list.take(i as int));
        assert(list.take(i + 1).drop_last() =~= list.take(i as int));
        assert(rules_by_register(list.take(i + 1)) == rules.insert(register, rule));
        assert(!rules.dom().contains(register)) by {
            lemma_rules_by_register(list.take(i as int));
        }
        if let Rule::Offset(offset) = rule {
            if let Some(value) = memory.read_u32(offset_address(cfa, offset)) {
                registers.set(register, value);
            }
        }
        i += 1;
        assert(registers@.regs =~= recovered_registers(
            return_address,
            rules.insert(register, rule),
            cfa,
            words,
            sp_is_placeholder,
        ).regs);
    }
    assert(list.take(list.len() as int) =~= list);
    registers
}

/// Whether `more` begins with `frames`.
pub open spec fn extends(frames: Seq<Frame>, more: Seq<Frame>) -> bool {
    frames.len() <= more.len() && more.take(frames.len() as int) == frames
}

/// Whether a caller's frame is always above its callee's, or level with it if that
/// is the innermost one, among the frames that weren't reconstructed.
pub open spec fn goes_up(frames: Seq<Frame>) -> bool {
    forall|i: int, j: int|
        0 <= i < j < frames.len() && !frames[i].recovered && !frames[j].recovered
            ==> frames[i].sp < frames[j].sp || (i == 0 && frames[i].sp == frames[j].sp)
}

/// Reconstructed frames are marked as such.
proof fn lemma_recovered(
    data: UnwindData,
    cfa: u32,
    function_start: u32,
    words: Map<u32, u32>,
    sp_is_placeholder: bool,
    addr: u32,
    steps: nat,
)
    ensures
        data.recover_from(
            cfa,
            function_start,
            words,
            sp_is_placeholder,
            addr,
            steps,
        ) matches Some((frames, registers)) ==> forall|i: int|
            0 <= i < frames.len() ==> (#[trigger] frames[i]).recovered
                && frames[i].is_return_address,
    decreases steps,
{
    if steps > 0 {
        lemma_recovered(
            data,
            cfa,
            function_start,
            words,
            sp_is_placeholder,
            wrap(addr + 4),
            (steps - 1) as nat,
        );
    }
}

/// A step of a walk adds frames after those found so far, all but the first of
/// them reconstructed, and none beyond the limit.
proof fn lemma_next_frame(
    data: UnwindData,
    registers: RegisterValues,
    words: Map<u32, u32>,
    max_frames: nat,
    frames: Seq<Frame>,
)
    requires
        0 < frames.len() <= max_frames,
    ensures
        ({
            let next = data.next_frame(registers, words, max_frames, frames).0;
            &&& extends(frames, next)
            &&& next.len() <= max_frames
            &&& forall|i: int|
                frames.len() <= i < next.len() ==> (#[trigger] next[i]).recovered
                    && next[i].is_return_address
        }),
{
    let next = data.next_frame(registers, words, max_frames, frames).0;
    if let Err(Failure::ReturnAddressLost { cfa, function_start }) = data.step(
        registers,
        frames.last().lookup(),
        words,
        frames.len() == 1,
    ) {
        lemma_recovered(
            data,
            cfa,
            function_start,
            words,
            registers.sp_is_placeholder,
            cfa,
            ADDRESS_COUNT as nat,
        );
    }
    assert(next.take(frames.len() as int) =~= frames);
}

/// What holds of the frames that a walk adds to those found so far.
proof fn lemma_walk(
    data: UnwindData,
    registers: RegisterValues,
    is_return_address: bool,
    words: Map<u32, u32>,
    max_frames: nat,
    frames: Seq<Frame>,
)
    requires
        frames.len() <= max_frames,
        frames.len() > 0 ==> is_return_address,
        forall|i: int| 0 < i < frames.len() ==> (#[trigger] frames[i]).is_return_address,
        goes_up(frames),
        registers.get(REG_SP as int) matches Some(sp) ==> forall|i: int|
            0 <= i < frames.len() && !(#[trigger] frames[i]).recovered ==> frames[i].sp < sp || (i
                == 0 && frames[i].sp == sp),
    ensures
        ({
            let walk = data.walk(registers, is_return_address, words, max_frames, frames).0;
            &&& extends(frames, walk)
            &&& walk.len() <= max_frames
            &&& forall|i: int| 0 < i < walk.len() ==> (#[trigger] walk[i]).is_return_address
            &&& goes_up(walk)
            &&& (registers.get(REG_SP as int) matches Some(sp) && frames.len() < max_frames)
                ==> extends(
                frames.push(
                    Frame {
                        pc: registers.pc,
                        sp: registers.get(REG_SP as int)->0,
                        is_return_address,
                        recovered: false,
                    },
                ),
                walk,
            )
        }),
    decreases max_frames - frames.len(),
{
    let walk = data.walk(registers, is_return_address, words, max_frames, frames).0;
    assert(frames.take(frames.len() as int) =~= frames);
    if let Some(sp) = registers.get(REG_SP as int) {
        if frames.len() < max_frames {
            let frame = Frame { pc: registers.pc, sp, is_return_address, recovered: false };
            let pushed = frames.push(frame);
            let (next, caller) = data.next_frame(registers, words, max_frames, pushed);
            lemma_next_frame(data, registers, words, max_frames, pushed);
            assert forall|i: int| 0 <= i < pushed.len() implies next[i] == pushed[i] by {
                assert(next.take(pushed.len() as int)[i] == pushed[i]);
            }
            assert(goes_up(next));
            if let Ok(caller) = caller {
                if !goes_down(registers, sp, caller, frames.len() == 0) {
                    lemma_walk(data, caller, true, words, max_frames, next);
                    assert forall|i: int| 0 <= i < next.len() implies walk[i] == next[i] by {
                        assert(walk.take(next.len() as int)[i] == next[i]);
                    }
                }
            }
            assert(walk.take(pushed.len() as int) =~= pushed);
            assert(walk.take(frames.len() as int) =~= frames);
        }
    }
}

/// Unwinding always includes the starting frame, and it comes first.
pub proof fn law_starting_frame_comes_first(
    data: UnwindData,
    registers: RegisterValues,
    words: Map<u32, u32>,
    max_frames: nat,
)
    ensures
        ({
            let frames = data.unwind(registers, words, max_frames).0;
            &&& frames.len() > 0
            &&& frames[0] == starting_frame(registers)
        }),
{
    if registers.get(REG_SP as int) is Some && max_frames > 0 {
        let frames = data.unwind(registers, words, max_frames).0;
        lemma_walk(data, registers, registers.pc_is_return_address, words, max_frames, seq![]);
        assert(frames.take(1)[0] == seq![].push(starting_frame(registers))[0]);
    }
}

/// Unwinding finds no more frames than are asked for (but for the starting frame),
/// all but the first of them are found by a return address, and a caller's frame is
/// always above its callee's, or level with the innermost one (as far as they
/// weren't reconstructed).
pub proof fn law_frames_are_consistent(
    data: UnwindData,
    registers: RegisterValues,
    words: Map<u32, u32>,
    max_frames: nat,
)
    ensures
        ({
            let frames = data.unwind(registers, words, max_frames).0;
            &&& frames.len() <= max_frames || frames.len() == 1
            &&& forall|i: int| 0 < i < frames.len() ==> (#[trigger] frames[i]).is_return_address
            &&& goes_up(frames)
        }),
{
    lemma_walk(data, registers, registers.pc_is_return_address, words, max_frames, seq![]);
}

/// A lower frame limit cuts a walk short.
proof fn lemma_limit(
    data: UnwindData,
    registers: RegisterValues,
    is_return_address: bool,
    words: Map<u32, u32>,
    limit: nat,
    max_frames: nat,
    frames: Seq<Frame>,
)
    requires
        frames.len() <= limit <= max_frames,
    ensures
        ({
            let cut = data.walk(registers, is_return_address, words, limit, frames);
            let walk = data.walk(registers, is_return_address, words, max_frames, frames);
            &&& extends(frames, walk.0)
            &&& extends(cut.0, walk.0)
            &&& cut.1 != Stop::TooManyFrames ==> cut == walk
        }),
    decreases max_frames - frames.len(),
{
    let cut = data.walk(registers, is_return_address, words, limit, frames);
    let walk = data.walk(registers, is_return_address, words, max_frames, frames);
    assert(frames.take(frames.len() as int) =~= frames);
    if let Some(sp) = registers.get(REG_SP as int) {
        if frames.len() < max_frames {
            let frame = Frame { pc: registers.pc, sp, is_return_address, recovered: false };
            let pushed = frames.push(frame);
            let (next, caller) = data.next_frame(registers, words, max_frames, pushed);
            lemma_next_frame(data, registers, words, max_frames, pushed);
            assert forall|i: int| 0 <= i < pushed.len() implies next[i] == pushed[i] by {
                assert(next.take(pushed.len() as int)[i] == pushed[i]);
            }
            if let Ok(caller) = caller {
                if !goes_down(registers, sp, caller, frames.len() == 0) {
                    let inner = if next.len() <= limit {
                        limit
                    } else {
                        next.len()
                    };
                    lemma_limit(data, caller, true, words, inner, max_frames, next);
                    assert forall|i: int| 0 <= i < next.len() implies walk.0[i] == next[i] by {
                        assert(walk.0.take(next.len() as int)[i] == next[i]);
                    }
                }
            }
            assert(walk.0.take(pushed.len() as int) =~= pushed);
            assert(walk.0.take(frames.len() as int) =~= frames);
            assert(next.take(next.len() as int) =~= next);
        }
    }
}

/// The frame limit does nothing but cut the walk short: with a lower limit
/// unwinding finds the innermost of the same frames, and stops for the same
/// reason unless the limit is why it stops.
pub proof fn law_limit_cuts_the_walk(
    data: UnwindData,
    registers: RegisterValues,
    words: Map<u32, u32>,
    limit: nat,
    max_frames: nat,
)
    requires
        limit <= max_frames,
    ensures
        extends(
            data.unwind(registers, words, limit).0,
            data.unwind(registers, words, max_frames).0,
        ),
        data.unwind(registers, words, limit).1 != Stop::TooManyFrames ==> data.unwind(
            registers,
            words,
            limit,
        ) == data.unwind(registers, words, max_frames),
{
    lemma_limit(
        data,
        registers,
        registers.pc_is_return_address,
        words,
        limit,
        max_frames,
        seq![],
    );
    let start = starting_frame(registers);
    let frames = data.unwind(registers, words, max_frames).0;
    law_starting_frame_comes_first(data, registers, words, max_frames);
    assert(frames.take(1) =~= seq![start]);
    assert(seq![start].take(1) =~= seq![start]);
}

/// The end of the stack is only reported for a return address that is zero, or that
/// the unwind rules mark as undefined: one that is needed but unknown is reported as
/// such.
pub proof fn law_end_of_stack_is_marked(
    data: UnwindData,
    registers: RegisterValues,
    lookup_pc: u32,
    words: Map<u32, u32>,
    innermost: bool,
)
    requires
        data.step(registers, lookup_pc, words, innermost) == Err::<RegisterValues, Failure>(
            Failure::Stop(Stop::EndOfStack),
        ),
    ensures
        ({
            &&& (data.rows)(lookup_pc as u64) matches Some(row)
            &&& registers.get(REG_SP as int) matches Some(sp)
            &&& frame_cfa(row, registers, sp) matches Ok(cfa)
            &&& if row.rules.dom().contains(REG_RA) {
                ||| row.rules[REG_RA] == Rule::Undefined
                ||| rule_value(row.rules[REG_RA], REG_RA, registers, cfa, words) == Some(0u32)
            } else {
                innermost && registers.get(REG_RA as int) == Some(0u32)
            }
        }),
{
}

/// A walk stops at a frame that isn't the innermost one and whose caller doesn't sit
/// above it.
pub proof fn law_level_frames_end_the_walk(
    data: UnwindData,
    registers: RegisterValues,
    is_return_address: bool,
    words: Map<u32, u32>,
    max_frames: nat,
    frames: Seq<Frame>,
    sp: u32,
)
    requires
        0 < frames.len() < max_frames,
        registers.get(REG_SP as int) == Some(sp),
        ({
            let frame = Frame { pc: registers.pc, sp, is_return_address, recovered: false };
            data.step(registers, frame.lookup(), words, false) matches Ok(caller)
                && caller.get(REG_SP as int) matches Some(caller_sp) && caller_sp <= sp
        }),
    ensures
        data.walk(registers, is_return_address, words, max_frames, frames) == (
            frames.push(
                Frame { pc: registers.pc, sp, is_return_address, recovered: false },
            ),
            Stop::Inconsistent,
        ),
{
}

/// The values of the registers which a function must preserve survive into the
/// caller's frame unless the unwind rules say otherwise; those of the other
/// registers don't.
pub proof fn law_callee_saved_registers_survive(
    rules: Map<u16, Rule>,
    registers: RegisterValues,
    cfa: u32,
    words: Map<u32, u32>,
    reg: u16,
)
    requires
        0 < reg < REG_COUNT,
        reg != REG_SP,
        !rules.dom().contains(reg),
    ensures
        caller_registers(rules, registers, cfa, words).get(reg as int) == (if callee_saved(
            reg as int,
        ) {
            registers.get(reg as int)
        } else {
            None::<u32>
        }),
{
}

/// The caller's stack pointer is the CFA, unless the unwind rules say otherwise.
pub proof fn law_caller_sp_is_cfa(
    rules: Map<u16, Rule>,
    registers: RegisterValues,
    cfa: u32,
    words: Map<u32, u32>,
)
    requires
        !rules.dom().contains(REG_SP),
    ensures
        caller_registers(rules, registers, cfa, words).get(REG_SP as int) == Some(cfa),
{
}

/// A stack pointer that is a placeholder stays one, and a real one stays real.
pub proof fn law_placeholder_is_passed_on(
    data: UnwindData,
    registers: RegisterValues,
    lookup_pc: u32,
    words: Map<u32, u32>,
    innermost: bool,
)
    ensures
        data.step(registers, lookup_pc, words, innermost) matches Ok(caller)
            ==> caller.sp_is_placeholder == registers.sp_is_placeholder,
{
}

/// A stack pointer that is a placeholder isn't combined with other registers: the
/// CFA only depends on it.
pub proof fn law_placeholder_is_not_combined(
    row: RowRules,
    registers: RegisterValues,
    other: RegisterValues,
    sp: u32,
)
    requires
        registers.sp_is_placeholder,
        other.sp_is_placeholder,
        registers.pc == other.pc,
        registers.get(REG_SP as int) == Some(sp),
        other.get(REG_SP as int) == Some(sp),
    ensures
        frame_cfa(row, registers, sp) == frame_cfa(row, other, sp),
{
}

/// Reconstructed frames come from a return address on the stack: it follows a call
/// to a function with unwind rules from which a chain of calls leads to the
/// function that lost its return address, one reconstructed frame per call, and it
/// is exactly where the unwind rules of the first caller in that chain place its
/// saved return address.
pub proof fn law_recovered_frames_follow_calls(
    data: UnwindData,
    cfa: u32,
    function_start: u32,
    words: Map<u32, u32>,
    sp_is_placeholder: bool,
    addr: u32,
    steps: nat,
)
    requires
        data.recover_from(cfa, function_start, words, sp_is_placeholder, addr, steps) is Some,
    ensures
        ({
            let (frames, caller) = data.recover_from(
                cfa,
                function_start,
                words,
                sp_is_placeholder,
                addr,
                steps,
            )->0;
            &&& data.call_before(caller.pc) matches Some(Call { target: Some(start) })
            &&& (data.rows)(start as u64) matches Some(entry)
            &&& data.call_chain(
                entry.function_start,
                entry.function_end,
                function_start,
                MAX_INTERMEDIATE as nat,
            ) matches Some(chain)
            &&& frames == chain_frames(chain, cfa)
            &&& 0 < frames.len() <= MAX_INTERMEDIATE + 1
            &&& (data.rows)(wrap(chain[0].0 - 1) as u64) matches Some(row)
            &&& row.rules.dom().contains(REG_RA)
            &&& row.rules[REG_RA] matches Rule::Offset(offset)
            &&& word_at(
                words,
                wrap(wrap(chain_sp(chain, cfa, 0) + chain[0].1) + offset),
            ) == Some(caller.pc)
        }),
    decreases steps,
{
    let word = word_at(words, addr)->0;
    match data.recover_at(cfa, function_start, words, sp_is_placeholder, addr, word) {
        Some(_) => {
            let start = data.call_before(word)->0.target->0;
            let entry = (data.rows)(start as u64)->0;
            law_chain_has_few_intermediates(
                data,
                entry.function_start,
                entry.function_end,
                function_start,
                MAX_INTERMEDIATE as nat,
            );
        },
        None => {
            law_recovered_frames_follow_calls(
                data,
                cfa,
                function_start,
                words,
                sp_is_placeholder,
                wrap(addr + 4),
                (steps - 1) as nat,
            );
        },
    }
}

impl UnwindData {
    /// The address of the word after another, while the stack is scanned for a
    /// return address that callers can be reconstructed from.
    pub open spec fn next_word(
        self,
        cfa: u32,
        function_start: u32,
        words: Map<u32, u32>,
        sp_is_placeholder: bool,
    ) -> spec_fn(u32) -> Option<u32> {
        |addr: u32|
            match word_at(words, addr) {
                Some(word) if self.recover_at(
                    cfa,
                    function_start,
                    words,
                    sp_is_placeholder,
                    addr,
                    word,
                ) is None => Some(wrap(addr + 4)),
                _ => None,
            }
    }
}

/// More steps than a scan takes change nothing.
proof fn lemma_recover_from(
    data: UnwindData,
    cfa: u32,
    function_start: u32,
    words: Map<u32, u32>,
    sp_is_placeholder: bool,
    addr: u32,
    n: nat,
    m: nat,
)
    requires
        ends_within(data.next_word(cfa, function_start, words, sp_is_placeholder), addr, n),
        ends_within(data.next_word(cfa, function_start, words, sp_is_placeholder), addr, m),
    ensures
        data.recover_from(cfa, function_start, words, sp_is_placeholder, addr, n + 1)
            == data.recover_from(cfa, function_start, words, sp_is_placeholder, addr, m + 1),
    decreases n,
{
    if let Some(next) = (data.next_word(cfa, function_start, words, sp_is_placeholder))(addr) {
        lemma_recover_from(
            data,
            cfa,
            function_start,
            words,
            sp_is_placeholder,
            next,
            (n - 1) as nat,
            (m - 1) as nat,
        );
    }
}

/// The limit on the number of words cuts no scan of the stack short that would end
/// without it.
pub proof fn law_recovery_is_complete(
    data: UnwindData,
    cfa: u32,
    function_start: u32,
    words: Map<u32, u32>,
    sp_is_placeholder: bool,
    n: nat,
)
    requires
        ends_within(data.next_word(cfa, function_start, words, sp_is_placeholder), cfa, n),
    ensures
        data.recover(cfa, function_start, words, sp_is_placeholder) == data.recover_from(
            cfa,
            function_start,
            words,
            sp_is_placeholder,
            cfa,
            n + 1,
        ),
{
    let next = data.next_word(cfa, function_start, words, sp_is_placeholder);
    law_walks_end_soon_or_never(next, cfa, n);
    lemma_recover_from(
        data,
        cfa,
        function_start,
        words,
        sp_is_placeholder,
        cfa,
        n,
        (ADDRESS_COUNT - 1) as nat,
    );
}

} // verus!
