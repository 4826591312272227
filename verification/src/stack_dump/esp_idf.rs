//! Collection of the crash dumps printed by ESP-IDF on RISC-V chips.
//!
//! Unless configured to produce a backtrace on its own (with
//! `CONFIG_ESP_SYSTEM_USE_EH_FRAME` or `CONFIG_ESP_SYSTEM_USE_FRAME_POINTER`),
//! the ESP-IDF panic handler prints a register dump followed by a raw dump of
//! the stack memory:
//!
//! ```text
//! Core  0 register dump:
//! MEPC    : 0x1c80006e  RA      : 0x4212bca4  SP      : 0x4087e1f0  GP      : 0x408173f4
//! TP      : 0x00000000  T0      : 0x400228f4  T1      : 0x40800bd0  T2      : 0x00000000
//! ...
//! MHARTID : 0x00000000
//!
//! Stack memory:
//! 4087e1f0: 0xffff8000 0x4227e287 0x421ed0a3 0x4086fb7a 0x422419ca 0xf8fc5606 0xdf1a9ebd 0x00010000
//! 4087e210: 0x24f856d7 0x001f0000 0x00010020 0x000a0020 0x421f0020 0x42000020 0x0008e268 0x001ed084
//! ...
//! ```
//!
//! [`EspIdf`] gathers these lines as they arrive. A stack memory dump without
//! a preceding register dump is left alone, since it can't be unwound without
//! knowing the program counter.
use super::{with_words, Collector, Dump, DumpData, Line, LineKind, SegmentWords, StackMemory};
use crate::patterns::{
    captures, captures_iter, is_header, is_match, pair_text, register_pairs, stack_line, REGISTER,
    REGISTER_DUMP_HEADER, STACK_LINE,
};
use crate::registers::{only_pc, RegisterValues, Registers, REGISTER_NAMES};
use crate::symbols::Symbols;
use crate::text::{
    begins_with, chars_of, find_word, find_word_end, hex_value, is_text, parse_hex, starts_with,
    trim, trimmed, words_from,
};
use vstd::prelude::*;
use vstd::slice::slice_subrange;

verus! {

/// Start of the stack memory dump.
pub const STACK_MEMORY_HEADER: &'static str = "Stack memory:";

/// The name of the program counter in a register dump.
pub const PROGRAM_COUNTER: &'static str = "MEPC";

/// What part of a crash dump is being collected.
#[derive(Clone, Copy, Debug, PartialEq, Eq)]
pub enum State {
    /// None.
    Idle,
    /// The registers.
    Registers,
    /// The stack memory.
    Stack,
}

/// What an [`EspIdf`] holds.
#[verifier::ext_equal]
pub struct Collected {
    /// What part of a crash dump is being collected.
    pub state: State,
    /// The program counter, if it was seen.
    pub pc: Option<u32>,
    /// The registers, if any were seen.
    pub registers: Option<RegisterValues>,
    /// The stack memory so far.
    pub stack: Seq<SegmentWords>,
}

/// Collects the crash dumps of the ESP-IDF panic handler.
#[derive(Debug)]
pub struct EspIdf {
    /// What part of a crash dump is being collected.
    pub state: State,
    /// The program counter, if it was seen.
    pub pc: Option<u32>,
    /// The registers, if any were seen.
    pub registers: Option<Registers>,
    /// The stack memory so far.
    pub stack: StackMemory,
}

impl View for EspIdf {
    type V = Collected;

    open spec fn view(&self) -> Collected {
        Collected {
            state: self.state,
            pc: self.pc,
            registers: match self.registers {
                Some(registers) => Some(registers@),
                None => None,
            },
            stack: self.stack@,
        }
    }
}

/// Nothing collected.
pub open spec fn nothing() -> Collected {
    Collected { state: State::Idle, pc: None, registers: None, stack: seq![] }
}

/// The number of a register with the given name, from `i` on.
pub open spec fn register_number(name: Seq<char>, i: int) -> Option<int>
    decreases REGISTER_NAMES.len() - i,
{
    if 0 <= i < REGISTER_NAMES.len() {
        if REGISTER_NAMES[i]@ == name {
            Some(i)
        } else {
            register_number(name, i + 1)
        }
    } else {
        None
    }
}

impl Collected {
    /// The registers seen so far; only the program counter is known of none.
    pub open spec fn known_registers(self) -> RegisterValues {
        match self.registers {
            Some(registers) => registers,
            None => only_pc(
                match self.pc {
                    Some(pc) => pc,
                    None => 0,
                },
            ),
        }
    }

    /// After a register pair with the given name and value.
    pub open spec fn with_register(self, name: Seq<char>, value: u32) -> Collected {
        if name == PROGRAM_COUNTER@ {
            Collected { pc: Some(value), ..self }
        } else {
            match register_number(name, 0) {
                Some(reg) => Collected {
                    registers: Some(self.known_registers().with(reg, Some(value))),
                    ..self
                },
                None => self,
            }
        }
    }

    /// After the given register pairs, each a name and its digits.
    pub open spec fn with_pairs(self, pairs: Seq<(Seq<char>, Seq<char>)>) -> Collected
        decreases pairs.len(),
    {
        if pairs.len() == 0 {
            self
        } else {
            let rest = self.with_pairs(pairs.drop_last());
            match hex_value(pairs.last().1, u32::MAX as nat) {
                Some(value) => rest.with_register(pairs.last().0, value as u32),
                None => rest,
            }
        }
    }

    /// With the program counter among the registers.
    pub open spec fn with_pc(self) -> Collected {
        match self.pc {
            Some(pc) => Collected {
                registers: Some(RegisterValues { pc, ..self.known_registers() }),
                ..self
            },
            None => self,
        }
    }

    /// After a line of a register dump with the given pairs.
    pub open spec fn with_register_line(self, pairs: Seq<(Seq<char>, Seq<char>)>) -> Collected {
        self.with_pairs(pairs).with_pc()
    }

    /// After a line that may start a crash dump.
    pub open spec fn started(self, line: Seq<char>) -> Collected {
        if is_header(line) {
            Collected { state: State::Registers, ..nothing() }
        } else {
            self
        }
    }

    /// The dump that was collected.
    pub open spec fn dump(self) -> DumpData {
        DumpData {
            registers: match self.registers {
                Some(registers) => registers,
                None => only_pc(0),
            },
            memory: self.stack,
        }
    }

    /// After a line of a stack memory dump.
    pub open spec fn with_stack_line(self, addr: u32, words: Seq<u32>) -> Collected {
        Collected { stack: with_words(self.stack, addr, words), ..self }
    }

    /// After a line while registers are collected.
    pub open spec fn after_registers(self, line: Seq<char>) -> Collected {
        if is_header(line) {
            self.started(line)
        } else if begins_with(line, STACK_MEMORY_HEADER@) {
            if self.registers is Some {
                Collected { state: State::Stack, ..self }
            } else {
                nothing()
            }
        } else if !has_pairs(register_pairs(line, 0)) && trimmed(line).len() > 0 {
            // Something else follows the register dump, e.g. the backtrace of
            // a firmware that produces one on its own.
            nothing()
        } else {
            self.with_register_line(register_pairs(line, 0))
        }
    }

    /// After a line, and what that line is.
    pub open spec fn next(self, line: Seq<char>) -> (Collected, LineKind) {
        match self.state {
            State::Idle => (self.started(line), LineKind::Other),
            State::Registers => (self.after_registers(line), LineKind::Other),
            State::Stack => match stack_words(line) {
                Some((addr, words)) => (self.with_stack_line(addr, words), LineKind::Data),
                None => (
                    nothing().started(line),
                    LineKind::Complete { dump: self.dump(), includes_line: false },
                ),
            },
        }
    }
}

/// Whether any of the pairs has a value.
pub open spec fn has_pairs(pairs: Seq<(Seq<char>, Seq<char>)>) -> bool {
    exists|i: int|
        0 <= i < pairs.len() && hex_value((#[trigger] pairs[i]).1, u32::MAX as nat) is Some
}

/// The values of the given words, each of which is `0x` and digits.
pub open spec fn word_values(words: Seq<Seq<char>>) -> Seq<u32>
    decreases words.len(),
{
    if words.len() == 0 {
        seq![]
    } else {
        let rest = word_values(words.drop_first());
        match hex_value(words[0].skip(2), u32::MAX as nat) {
            Some(value) if words[0].len() >= 2 => seq![value as u32] + rest,
            _ => rest,
        }
    }
}

/// The address and the words of a line of a stack memory dump, if it is one.
pub open spec fn stack_words(line: Seq<char>) -> Option<(u32, Seq<u32>)> {
    match stack_line(line) {
        Some((addr, words)) => match hex_value(addr, u32::MAX as nat) {
            Some(addr) => Some((addr as u32, word_values(words_from(words, 0)))),
            None => None,
        },
        None => None,
    }
}

impl Default for EspIdf {
    /// Creates a collector that has collected nothing.
    fn default() -> (collector: Self)
        ensures
            collector@ == nothing(),
    {
        EspIdf { state: State::Idle, pc: None, registers: None, stack: StackMemory::default() }
    }
}

/// Returns the number of the register with the given name.
fn find_register(name: &[char]) -> (number: Option<u16>)
    ensures
        register_number(name@, 0) == (match number {
            Some(number) => Some(number as int),
            None => None,
        }),
{
    let mut i: usize = 0;
    while i < REGISTER_NAMES.len()
        invariant
            0 <= i <= REGISTER_NAMES.len(),
            register_number(name@, 0) == register_number(name@, i as int),
        decreases REGISTER_NAMES.len() - i,
    {
        if is_text(name, REGISTER_NAMES[i]) {
            return Some(i as u16);
        }
        i += 1;
    }
    None
}

/// Parses the words of a line of a stack memory dump.
fn parse_words(text: &[char]) -> (words: Vec<u32>)
    ensures
        words@ == word_values(words_from(text@, 0)),
{
    let ghost all = word_values(words_from(text@, 0));
    let mut words: Vec<u32> = Vec::new();
    let mut i: usize = 0;
    assert(words@ + all =~= all);
    loop
        invariant
            0 <= i <= text@.len(),
            words@ + word_values(words_from(text@, i as int)) == all,
            all == word_values(words_from(text@, 0)),
        decreases text@.len() - i,
    {
        let start = find_word(text, i);
        let end = find_word_end(text, start);
        let ghost word = text@.subrange(start as int, end as int);
        let ghost rest = words_from(text@, end as int);
        if start == end {
            assert(words_from(text@, i as int) =~= seq![]);
            assert(words@ + word_values(seq![]) =~= words@);
            return words;
        }
        assert(words_from(text@, i as int) == seq![word] + rest);
        assert((seq![word] + rest).drop_first() =~= rest);
        if end - start >= 2 {
            let digits = slice_subrange(text, start + 2, end);
            assert(digits@ =~= word.skip(2));
            if let Some(value) = parse_hex(digits, u32::MAX) {
                assert(words@.push(value) + word_values(rest) =~= words@ + (seq![value]
                    + word_values(rest)));
                words.push(value);
            }
        }
        i = end;
    }
}

/// The characters of register pairs.
pub open spec fn pair_texts(pairs: Seq<(String, String)>) -> Seq<(Seq<char>, Seq<char>)> {
    pairs.map_values(|pair: (String, String)| pair_text(pair))
}

/// Checks whether a line is the start of a register dump.
fn is_dump_header(line: &str) -> (header: bool)
    ensures
        header == is_header(line@),
{
    is_match(REGISTER_DUMP_HEADER, line)
}

impl EspIdf {
    /// Drops what was collected.
    pub fn reset(&mut self)
        ensures
            final(self)@ == nothing(),
    {
        *self = EspIdf::default();
    }

    /// Checks whether `line` starts a crash dump and if so, starts collecting.
    pub fn start(&mut self, line: &str)
        ensures
            final(self)@ == old(self)@.started(line@),
    {
        if is_dump_header(line) {
            self.reset();
            self.state = State::Registers;
        }
    }

    /// Ends the collection. Only called once the registers are known.
    pub fn finish(&mut self) -> (dump: Dump)
        ensures
            dump@ == old(self)@.dump(),
            final(self)@ == nothing(),
    {
        let mut memory = StackMemory::default();
        core::mem::swap(&mut memory, &mut self.stack);
        let registers = match self.registers {
            Some(registers) => registers,
            None => Registers::new(0),
        };
        self.reset();
        Dump { registers, memory }
    }

    /// Returns the registers seen so far; only the program counter is known of
    /// none.
    fn known_registers(&self) -> (registers: Registers)
        ensures
            registers@ == self@.known_registers(),
    {
        match self.registers {
            Some(registers) => registers,
            None => Registers::new(
                match self.pc {
                    Some(pc) => pc,
                    None => 0,
                },
            ),
        }
    }

    /// Takes the value of a register from a register dump. Names of other
    /// registers than the general purpose ones and the program counter are
    /// ignored.
    fn set_register(&mut self, name: &[char], value: u32)
        ensures
            final(self)@ == old(self)@.with_register(name@, value),
    {
        if is_text(name, PROGRAM_COUNTER) {
            self.pc = Some(value);
        } else if let Some(reg) = find_register(name) {
            let mut registers = self.known_registers();
            registers.set(reg, value);
            self.registers = Some(registers);
        }
    }

    /// Takes the register pairs of a register dump line, each a name and its
    /// digits. Returns `false` if none of them has a value.
    #[verifier::rlimit(40)]
    pub fn take_registers(&mut self, pairs: &Vec<(String, String)>) -> (matched: bool)
        ensures
            final(self)@ == old(self)@.with_register_line(pair_texts(pairs@)),
            matched == has_pairs(pair_texts(pairs@)),
    {
        let ghost texts = pair_texts(pairs@);
        let ghost before = self@;
        let mut matched = false;
        let mut i: usize = 0;
        assert(texts.take(0) =~= seq![]);
        while i < pairs.len()
            invariant
                0 <= i <= pairs@.len(),
                texts == pair_texts(pairs@),
                self@ == before.with_pairs(texts.take(i as int)),
                matched == has_pairs(texts.take(i as int)),
            decreases pairs@.len() - i,
        {
            let name = chars_of(pairs[i].0.as_str());
            let digits = chars_of(pairs[i].1.as_str());
            proof {
                let prefix = texts.take(i as int);
                let more = texts.take(i + 1);
                assert(more.drop_last() =~= prefix);
                assert(more.last() == (name@, digits@));
                assert forall|j: int| 0 <= j < i implies more[j] == prefix[j] by {
                }
                if has_pairs(prefix) {
                    let j = choose|j: int|
                        0 <= j < prefix.len() && hex_value(
                            (#[trigger] prefix[j]).1,
                            u32::MAX as nat,
                        ) is Some;
                    assert(more[j] == prefix[j]);
                }
                if has_pairs(more) {
                    let j = choose|j: int|
                        0 <= j < more.len() && hex_value(
                            (#[trigger] more[j]).1,
                            u32::MAX as nat,
                        ) is Some;
                    assert(j < i ==> prefix[j] == more[j]);
                }
                assert(more[i as int] == (name@, digits@));
            }
            if let Some(value) = parse_hex(&digits, u32::MAX) {
                matched = true;
                self.set_register(&name, value);
            }
            i += 1;
        }
        assert(texts.take(texts.len() as int) =~= texts);
        if let Some(pc) = self.pc {
            let mut registers = self.known_registers();
            registers.pc = pc;
            self.registers = Some(registers);
        }
        matched
    }

    /// Parses the `NAME : 0xVALUE` pairs of a register dump line. Returns
    /// `false` if the line isn't one.
    pub fn parse_registers(&mut self, line: &str) -> (matched: bool)
        ensures
            final(self)@ == old(self)@.with_register_line(register_pairs(line@, 0)),
            matched == has_pairs(register_pairs(line@, 0)),
    {
        let pairs = captures_iter(REGISTER, line);
        assert(pair_texts(pairs@) =~= register_pairs(line@, 0));
        self.take_registers(&pairs)
    }

    /// Parses a line of the stack memory dump. Returns `false` if the line
    /// isn't one.
    pub fn parse_stack_line(&mut self, line: &str) -> (matched: bool)
        ensures
            match stack_words(line@) {
                Some((addr, words)) => matched && final(self)@ == old(self)@.with_stack_line(
                    addr,
                    words,
                ),
                None => !matched && final(self)@ == old(self)@,
            },
    {
        let Some((addr, words)) = captures(STACK_LINE, line) else {
            return false;
        };
        let Some(addr) = parse_hex(&chars_of(addr.as_str()), u32::MAX) else {
            return false;
        };
        let words = parse_words(&chars_of(words.as_str()));
        self.stack.push(addr, &words);
        true
    }
}

impl Collector for EspIdf {
    open spec fn after(state: Collected, line: Seq<char>, elfs: Seq<Seq<u8>>) -> (
        Collected,
        LineKind,
    ) {
        state.next(line)
    }

    fn feed(&mut self, line: &str, symbols: &[Symbols<'_>]) -> (kind: Line) {
        match self.state {
            State::Idle => {
                self.start(line);
                Line::Other
            },
            State::Registers => {
                let chars = chars_of(line);
                if is_dump_header(line) {
                    self.start(line);
                } else if starts_with(&chars, STACK_MEMORY_HEADER) {
                    if self.registers.is_some() {
                        self.state = State::Stack;
                    } else {
                        self.reset();
                    }
                } else {
                    let matched = self.parse_registers(line);
                    let (start, end) = trim(&chars);
                    if !matched && start < end {
                        // Something else follows the register dump, e.g. the
                        // backtrace of a firmware that produces one on its own.
                        self.reset();
                    }
                }
                Line::Other
            },
            State::Stack => {
                if self.parse_stack_line(line) {
                    Line::Data
                } else {
                    let dump = self.finish();
                    self.start(line);
                    Line::Complete { dump: Box::new(dump), includes_line: false }
                }
            },
        }
    }
}

impl Collected {
    /// Whether stack memory is only collected once the registers are known.
    pub open spec fn valid(self) -> bool {
        self.state is Stack ==> self.registers is Some
    }

    /// After the given lines.
    pub open spec fn after_lines(self, lines: Seq<Seq<char>>) -> Collected
        decreases lines.len(),
    {
        if lines.len() == 0 {
            self
        } else {
            self.after_lines(lines.drop_last()).next(lines.last()).0
        }
    }
}

/// Register pairs don't change what part of a dump is being collected.
proof fn lemma_with_pairs(collected: Collected, pairs: Seq<(Seq<char>, Seq<char>)>)
    ensures
        collected.with_pairs(pairs).state == collected.state,
        collected.registers is Some ==> collected.with_pairs(pairs).registers is Some,
    decreases pairs.len(),
{
    if pairs.len() > 0 {
        lemma_with_pairs(collected, pairs.drop_last());
    }
}

/// Stack memory is only ever collected once the registers are known, so that a
/// dump always comes with the registers that were seen before it.
pub proof fn law_dumps_have_registers(collected: Collected, line: Seq<char>)
    requires
        collected.valid(),
    ensures
        nothing().valid(),
        collected.next(line).0.valid(),
        collected.next(line).1 matches LineKind::Complete { dump, includes_line } ==> {
            &&& collected.registers == Some(dump.registers)
            &&& dump.memory == collected.stack
            &&& !includes_line
        },
{
    lemma_with_pairs(collected, register_pairs(line, 0));
}

/// Without a register dump nothing is collected: a stack memory dump by itself is
/// left alone.
pub proof fn law_nothing_is_collected_without_header(lines: Seq<Seq<char>>, line: Seq<char>)
    requires
        forall|i: int| 0 <= i < lines.len() ==> !is_header(#[trigger] lines[i]),
    ensures
        nothing().after_lines(lines) == nothing(),
        nothing().after_lines(lines).next(line).1 == LineKind::Other,
    decreases lines.len(),
{
    if lines.len() > 0 {
        law_nothing_is_collected_without_header(lines.drop_last(), line);
        assert(!is_header(lines[lines.len() - 1]));
    }
}

/// A dump is complete with the first line that isn't part of the stack memory,
/// and only then; that line may start the next one.
pub proof fn law_dump_completes_after_its_last_line(collected: Collected, line: Seq<char>)
    ensures
        collected.next(line).1 is Complete <==> collected.state is Stack && stack_words(
            line,
        ) is None,
        collected.next(line).1 is Data <==> collected.state is Stack && stack_words(line) is Some,
        collected.next(line).1 is Complete ==> collected.next(line).0 == (if is_header(line) {
            Collected { state: State::Registers, ..nothing() }
        } else {
            nothing()
        }),
{
}

} // verus!
