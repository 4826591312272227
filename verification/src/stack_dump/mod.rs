//! Decoding of stack dumps into backtraces.
//!
//! A panic handler that can't produce a backtrace on the device can instead
//! print the registers and the raw stack memory, and leave the unwinding to
//! the monitor, which has the ELF file and thus the call frame information
//! (see [`cfi_unwind`](super::cfi_unwind)).
//!
//! A [`Collector`] recognizes one dump format in the output, line by line, and
//! turns a dump into [`Registers`] plus a [`StackMemory`], which
//! [`print_backtrace`] unwinds and prints. There is one collector per
//! supported format:
//!
//! - [`esp_backtrace`] for the `STACKDUMP:` line of `esp-backtrace`
//!   (bare-metal).
//! - [`esp_idf`] for the register and stack memory dump of the ESP-IDF panic
//!   handler.
pub mod esp_backtrace;
pub mod esp_idf;

use crate::cfi_table::CfiTable;
use esp_backtrace::EspBacktrace;
use esp_idf::{nothing, EspIdf};
use crate::cfi_unwind::{Frame, Stop};
use crate::output::{output_texts, push_output, Output, OutputText};
use crate::registers::{Memory, RegisterValues, Registers, REGISTER_NAMES};
use crate::riscv::wrap;
use crate::symbols::{
    elf_functions, symbol_files, symbol_texts, SymbolFrame, SymbolText, Symbols,
};
use crate::text::{address_text, decimal_text, push_address, push_decimal};
use crate::unwind_data::{UnwindData, Unwinder};
use vstd::prelude::*;
use vstd::string::*;

verus! {

/// The most frames a backtrace is allowed to have.
pub const MAX_FRAMES: usize = 100;

/// A run of consecutive words.
#[derive(Clone, Debug, PartialEq, Eq)]
pub struct Segment {
    /// The address of the first word.
    pub base: u32,
    /// The words.
    pub words: Vec<u32>,
}

/// What a [`Segment`] holds.
#[verifier::ext_equal]
pub struct SegmentWords {
    /// The address of the first word.
    pub base: u32,
    /// The words.
    pub words: Seq<u32>,
}

impl View for Segment {
    type V = SegmentWords;

    open spec fn view(&self) -> SegmentWords {
        SegmentWords { base: self.base, words: self.words@ }
    }
}

impl Segment {
    /// The address after the last word.
    fn end(&self) -> (end: u32)
        ensures
            end == wrap(self@.base + 4 * self@.words.len()),
    {
        let len: u32 = (self.words.len() as u64 % 0x1_0000_0000) as u32;
        proof {
            lemma_truncated_len(self.words@.len());
        }
        self.base.wrapping_add(len.wrapping_mul(4))
    }
}

/// The dumped part of the stack.
#[derive(Clone, Debug, PartialEq, Eq)]
pub struct StackMemory {
    /// Runs of consecutive words.
    pub segments: Vec<Segment>,
}

impl View for StackMemory {
    type V = Seq<SegmentWords>;

    open spec fn view(&self) -> Seq<SegmentWords> {
        self.segments@.map_values(|segment: Segment| segment@)
    }
}

/// The segments of a memory after the words starting at `addr` were added: to the
/// last segment if they follow it, else as a segment of their own.
pub open spec fn with_words(
    segments: Seq<SegmentWords>,
    addr: u32,
    words: Seq<u32>,
) -> Seq<SegmentWords> {
    if segments.len() > 0 && wrap(segments.last().base + 4 * segments.last().words.len()) == addr {
        let last = segments.last();
        segments.drop_last().push(SegmentWords { base: last.base, words: last.words + words })
    } else {
        segments.push(SegmentWords { base: addr, words })
    }
}

/// The number of bytes in the segments.
pub open spec fn byte_count(segments: Seq<SegmentWords>) -> nat
    decreases segments.len(),
{
    if segments.len() == 0 {
        0
    } else {
        byte_count(segments.drop_last()) + 4 * segments.last().words.len()
    }
}

/// Whether the segment holds the word at `addr`.
pub open spec fn holds(segment: SegmentWords, addr: u32) -> bool {
    segment.base <= addr && (addr - segment.base) / 4 < segment.words.len()
}

/// The word at `addr`, per the first segment that holds it. Only aligned words
/// can be read.
pub open spec fn dumped_word(segments: Seq<SegmentWords>, addr: u32) -> Option<u32>
    decreases segments.len(),
{
    if segments.len() == 0 || addr % 4 != 0 {
        None
    } else if holds(segments[0], addr) {
        Some(segments[0].words[(addr - segments[0].base) / 4])
    } else {
        dumped_word(segments.drop_first(), addr)
    }
}

/// The words that can be read.
pub open spec fn dumped_words(segments: Seq<SegmentWords>) -> Map<u32, u32> {
    Map::new(
        |addr: u32| dumped_word(segments, addr) is Some,
        |addr: u32| dumped_word(segments, addr)->0,
    )
}

impl Default for StackMemory {
    /// Creates a memory that holds nothing.
    fn default() -> (memory: Self)
        ensures
            memory@ == Seq::<SegmentWords>::empty(),
    {
        let memory = StackMemory { segments: Vec::new() };
        assert(memory@ =~= Seq::<SegmentWords>::empty());
        memory
    }
}

impl StackMemory {
    /// Adds the words starting at `addr`.
    #[verifier::rlimit(40)]
    pub fn push(&mut self, addr: u32, words: &[u32])
        ensures
            final(self)@ == with_words(old(self)@, addr, words@),
    {
        if let Some(mut last) = self.segments.pop() {
            assert(self@ =~= old(self)@.drop_last());
            assert(last@ == old(self)@.last());
            if last.end() == addr {
                last.words.extend_from_slice(words);
                assert(last.words@ =~= old(self)@.last().words + words@);
                self.segments.push(last);
                assert(self@ =~= with_words(old(self)@, addr, words@));
                return;
            }
            self.segments.push(last);
            assert(self@ =~= old(self)@);
        }
        let mut copy: Vec<u32> = Vec::new();
        copy.extend_from_slice(words);
        assert(copy@ =~= words@);
        let segment = Segment { base: addr, words: copy };
        self.segments.push(segment);
        assert(self@ =~= with_words(old(self)@, addr, words@));
    }

    /// The number of dumped bytes, as far as it can be represented.
    pub fn len(&self) -> (len: usize)
        ensures
            len == if byte_count(self@) <= usize::MAX {
                byte_count(self@)
            } else {
                usize::MAX as nat
            },
    {
        let mut len: usize = 0;
        let mut i: usize = 0;
        assert(self@.take(0) =~= seq![]);
        while i < self.segments.len()
            invariant
                0 <= i <= self.segments@.len(),
                len == if byte_count(self@.take(i as int)) <= usize::MAX {
                    byte_count(self@.take(i as int))
                } else {
                    usize::MAX as nat
                },
            decreases self.segments@.len() - i,
        {
            assert(self@.take(i + 1).drop_last() =~= self@.take(i as int));
            assert(self@.take(i + 1).last() == self.segments@[i as int]@);
            let words = self.segments[i].words.len();
            let bytes: usize = if words <= usize::MAX / 4 {
                words * 4
            } else {
                usize::MAX
            };
            len = if bytes <= usize::MAX - len {
                len + bytes
            } else {
                usize::MAX
            };
            i += 1;
        }
        assert(self@.take(self@.len() as int) =~= self@);
        len
    }
}

/// The low 32 bits of a length, times four, wrap around as the length does.
proof fn lemma_truncated_len(len: nat)
    ensures
        wrap(4 * (len as int % 0x1_0000_0000)) == wrap((4 * len) as int),
{
    let low = len as int % 0x1_0000_0000;
    let high = len as int / 0x1_0000_0000;
    assert(4 * len == 4 * low + 0x1_0000_0000 * (4 * high));
    vstd::arithmetic::div_mod::lemma_mod_multiples_vanish(4 * high, 4 * low, 0x1_0000_0000);
}

impl Memory for StackMemory {
    open spec fn words(&self) -> Map<u32, u32> {
        dumped_words(self@)
    }

    fn read_u32(&self, addr: u32) -> (word: Option<u32>) {
        if addr % 4 != 0 {
            return None;
        }
        let mut i: usize = 0;
        assert(self@.skip(0) =~= self@);
        while i < self.segments.len()
            invariant
                0 <= i <= self.segments@.len(),
                addr % 4 == 0,
                dumped_word(self@, addr) == dumped_word(self@.skip(i as int), addr),
            decreases self.segments@.len() - i,
        {
            let segment = &self.segments[i];
            assert(self@.skip(i as int)[0] == segment@);
            assert(self@.skip(i as int).drop_first() =~= self@.skip(i + 1));
            if segment.base <= addr {
                let index: u32 = (addr - segment.base) / 4;
                if (index as usize) < segment.words.len() {
                    return Some(segment.words[index as usize]);
                }
            }
            i += 1;
        }
        None
    }
}

/// What a [`Dump`] holds.
#[verifier::ext_equal]
pub struct DumpData {
    /// The registers at the time the dump was taken.
    pub registers: RegisterValues,
    /// The dumped stack memory.
    pub memory: Seq<SegmentWords>,
}

/// A complete stack dump, ready to be unwound.
#[derive(Clone, Debug, PartialEq, Eq)]
pub struct Dump {
    /// The registers at the time the dump was taken.
    pub registers: Registers,
    /// The dumped stack memory.
    pub memory: StackMemory,
}

impl View for Dump {
    type V = DumpData;

    open spec fn view(&self) -> DumpData {
        DumpData { registers: self.registers@, memory: self.memory@ }
    }
}

/// What a [`Collector`] made of a line.
#[derive(Debug, PartialEq, Eq)]
pub enum Line {
    /// Not part of a stack dump.
    Other,
    /// Part of a stack dump which is still being collected. Its contents are
    /// data, not code addresses.
    Data,
    /// The line completed a stack dump. `includes_line` tells whether the line
    /// is itself part of the dump or the first line after it.
    Complete {
        /// The dump.
        dump: Box<Dump>,
        /// Whether the line is part of the dump.
        includes_line: bool,
    },
}

/// What a [`Line`] holds.
#[verifier::ext_equal]
pub enum LineKind {
    /// Not part of a stack dump.
    Other,
    /// Part of a stack dump which is still being collected.
    Data,
    /// The line completed a stack dump.
    Complete {
        /// The dump.
        dump: DumpData,
        /// Whether the line is part of the dump.
        includes_line: bool,
    },
}

impl View for Line {
    type V = LineKind;

    open spec fn view(&self) -> LineKind {
        match self {
            Line::Other => LineKind::Other,
            Line::Data => LineKind::Data,
            Line::Complete { dump, includes_line } => LineKind::Complete {
                dump: dump@,
                includes_line: *includes_line,
            },
        }
    }
}

/// Recognizes the stack dumps of one format in the output, line by line.
///
/// Collectors for different formats are chained into one by putting them in a
/// tuple: every collector sees every line, and the first one to recognize a
/// line decides what it is.
pub trait Collector: View {
    /// The state of a collector, and what a line is, after that line was fed to
    /// it. `elfs` are the ELF files of the symbols.
    spec fn after(state: Self::V, line: Seq<char>, elfs: Seq<Seq<u8>>) -> (Self::V, LineKind);

    /// Feeds the next complete line of output.
    fn feed(&mut self, line: &str, symbols: &[Symbols<'_>]) -> (kind: Line)
        ensures
            (final(self)@, kind@) == Self::after(old(self)@, line@, symbol_files(symbols@)),
    ;
}

impl<A: Collector, B: Collector> Collector for (A, B) {
    open spec fn after(state: (A::V, B::V), line: Seq<char>, elfs: Seq<Seq<u8>>) -> (
        (A::V, B::V),
        LineKind,
    ) {
        let (first, kind) = A::after(state.0, line, elfs);
        let (second, other) = B::after(state.1, line, elfs);
        (
            (first, second),
            if kind is Other {
                other
            } else {
                kind
            },
        )
    }

    fn feed(&mut self, line: &str, symbols: &[Symbols<'_>]) -> (kind: Line) {
        let first = self.0.feed(line, symbols);
        let second = self.1.feed(line, symbols);
        match first {
            Line::Other => second,
            _ => first,
        }
    }
}

/// The collector for all supported stack dump formats.
pub fn default_collector() -> (collector: (EspBacktrace, EspIdf))
    ensures
        collector@ == ((), nothing()),
{
    (EspBacktrace, EspIdf::default())
}

/// The functions at an address per the first of the ELF files that has any.
pub open spec fn resolved(elfs: Seq<Seq<u8>>, addr: u64) -> Seq<SymbolText>
    decreases elfs.len(),
{
    if elfs.len() == 0 {
        seq![]
    } else if elf_functions(elfs[0], addr).len() > 0 {
        elf_functions(elfs[0], addr)
    } else {
        resolved(elfs.drop_first(), addr)
    }
}

/// The name of a function as it is printed.
pub open spec fn printed_name(function: SymbolText) -> Seq<char> {
    match function.name {
        Some(name) => name,
        None => "??"@,
    }
}

/// The location of a function as it is printed.
pub open spec fn printed_location(function: SymbolText) -> Seq<char> {
    match function.location {
        Some((file, line)) => "    at "@ + file + ":"@ + decimal_text(line as nat) + "\r\n"@,
        None => "    at ??:??\r\n"@,
    }
}

/// The functions at an address as they are printed: the innermost one first,
/// followed by those it was inlined into.
pub open spec fn printed_functions(pc: u32, functions: Seq<SymbolText>) -> Seq<char>
    decreases functions.len(),
{
    if functions.len() == 0 {
        seq![]
    } else {
        let function = functions.last();
        let head = if functions.len() == 1 {
            address_text(pc) + " - "@
        } else {
            "    (inlined by) "@
        };
        printed_functions(pc, functions.drop_last()) + (head + printed_name(function) + "\r\n"@
            + printed_location(function))
    }
}

/// A frame as it is printed.
pub open spec fn printed_frame(pc: u32, functions: Seq<SymbolText>) -> Seq<char> {
    if functions.len() == 0 {
        address_text(pc) + " - ??\r\n    at ??:??\r\n"@
    } else {
        printed_functions(pc, functions)
    }
}

/// Frames as they are printed.
pub open spec fn printed_frames(frames: Seq<Frame>, elfs: Seq<Seq<u8>>) -> Seq<char>
    decreases frames.len(),
{
    if frames.len() == 0 {
        seq![]
    } else {
        printed_frames(frames.drop_last(), elfs) + printed_frame(
            frames.last().pc,
            resolved(elfs, frames.last().lookup() as u64),
        )
    }
}

/// The name of a register as it is printed.
pub open spec fn printed_register(reg: u16) -> Seq<char> {
    if reg < REGISTER_NAMES.len() {
        REGISTER_NAMES[reg as int]@
    } else {
        "a register"@
    }
}

/// Why unwinding stopped as it is printed, given the number of dumped bytes;
/// reaching the outermost frame needs no explanation.
pub open spec fn stop_note(stop: Stop, dumped: nat) -> Option<Seq<char>> {
    match stop {
        Stop::EndOfStack => None,
        Stop::ReturnAddressLost(pc) => Some(
            "the function at "@ + address_text(pc) + " didn't save its return address"@,
        ),
        Stop::NoUnwindInfo(pc) => Some(
            "no unwind info for "@ + address_text(pc) + "; is the ELF built with debug info?"@,
        ),
        Stop::MemoryUnavailable(addr) => Some(
            address_text(addr) + " is outside the dumped stack memory ("@ + decimal_text(dumped)
                + " bytes)"@,
        ),
        Stop::UnknownRegister(reg) => Some(
            "the value of "@ + printed_register(reg) + " is unknown"@,
        ),
        Stop::Unsupported(pc) => Some("unsupported unwind rule at "@ + address_text(pc)),
        Stop::TooManyFrames => Some("more than "@ + decimal_text(MAX_FRAMES as nat) + " frames"@),
        Stop::Inconsistent => Some("inconsistent stack frame"@),
    }
}

/// A backtrace as it is printed.
pub open spec fn printed_backtrace(
    frames: Seq<Frame>,
    stop: Stop,
    elfs: Seq<Seq<u8>>,
    dumped: nat,
) -> Seq<char> {
    let note = match stop_note(stop, dumped) {
        Some(note) => "(backtrace stopped: "@ + note + ")\r\n"@,
        None => seq![],
    };
    "\r\nBacktrace (decoded from the stack dump):\r\n"@ + printed_frames(frames, elfs) + note
        + "\r\n"@
}

/// The number of dumped bytes as it is printed.
pub open spec fn dumped_bytes(segments: Seq<SegmentWords>) -> nat {
    if byte_count(segments) <= usize::MAX {
        byte_count(segments)
    } else {
        usize::MAX as nat
    }
}

/// The backtrace of a dump as it is printed.
pub open spec fn dump_backtrace(
    dump: DumpData,
    data: UnwindData,
    elfs: Seq<Seq<u8>>,
) -> Seq<char> {
    let (frames, stop) = data.unwind(
        dump.registers,
        dumped_words(dump.memory),
        MAX_FRAMES as nat,
    );
    printed_backtrace(frames, stop, elfs, dumped_bytes(dump.memory))
}

/// Formats the location of a function.
fn format_location(location: &Option<(String, u32)>, out: &mut String)
    ensures
        final(out)@ == old(out)@ + printed_location(
            SymbolText {
                name: None,
                location: match location {
                    Some((file, line)) => Some((file@, *line)),
                    None => None,
                },
            },
        ),
{
    match location {
        Some((file, line)) => {
            out.append("    at ");
            out.append(file.as_str());
            out.append(":");
            push_decimal(out, *line as u64);
            out.append("\r\n");
            assert(out@ =~= old(out)@ + ("    at "@ + file@ + ":"@ + decimal_text(*line as nat)
                + "\r\n"@));
        },
        None => out.append("    at ??:??\r\n"),
    }
}

/// Formats the functions at an address, innermost first.
#[verifier::rlimit(40)]
pub fn format_functions(pc: u32, functions: &Vec<SymbolFrame>, out: &mut String)
    ensures
        final(out)@ == old(out)@ + printed_frame(pc, symbol_texts(functions@)),
{
    if functions.len() == 0 {
        push_address(out, pc);
        out.append(" - ??\r\n    at ??:??\r\n");
        assert(out@ =~= old(out)@ + printed_frame(pc, symbol_texts(functions@)));
        return;
    }
    let ghost texts = symbol_texts(functions@);
    let ghost before = out@;
    let mut i: usize = 0;
    assert(texts.take(0) =~= seq![]);
    assert(out@ =~= before + printed_functions(pc, texts.take(0)));
    while i < functions.len()
        invariant
            0 <= i <= functions@.len(),
            texts == symbol_texts(functions@),
            out@ == before + printed_functions(pc, texts.take(i as int)),
        decreases functions@.len() - i,
    {
        let function = &functions[i];
        let ghost start = out@;
        if i == 0 {
            push_address(out, pc);
            out.append(" - ");
        } else {
            out.append("    (inlined by) ");
        }
        match &function.name {
            Some(name) => out.append(name.as_str()),
            None => out.append("??"),
        }
        out.append("\r\n");
        format_location(&function.location, out);
        proof {
            let head = if i == 0 {
                address_text(pc) + " - "@
            } else {
                "    (inlined by) "@
            };
            let text = function@;
            assert(texts.take(i + 1).drop_last() =~= texts.take(i as int));
            assert(texts.take(i + 1).last() == text);
            assert(out@ =~= start + (head + printed_name(text) + "\r\n"@ + printed_location(text)));
            assert(out@ =~= before + printed_functions(pc, texts.take(i + 1)));
        }
        i += 1;
    }
    assert(texts.take(texts.len() as int) =~= texts);
}

/// Formats a frame.
pub fn format_frame(frame: &Frame, symbols: &[Symbols<'_>], out: &mut String)
    ensures
        final(out)@ == old(out)@ + printed_frame(
            frame.pc,
            resolved(symbol_files(symbols@), frame.lookup() as u64),
        ),
{
    let lookup_pc: u64 = frame.lookup_pc() as u64;
    let ghost elfs = symbol_files(symbols@);
    let mut i: usize = 0;
    assert(elfs.skip(0) =~= elfs);
    while i < symbols.len()
        invariant
            0 <= i <= symbols@.len(),
            lookup_pc <= u32::MAX,
            elfs == symbol_files(symbols@),
            resolved(elfs, lookup_pc) == resolved(elfs.skip(i as int), lookup_pc),
            lookup_pc == frame.lookup(),
            *out == *old(out),
        decreases symbols@.len() - i,
    {
        assert(elfs.skip(i as int)[0] == symbols@[i as int]@);
        assert(elfs.skip(i as int).drop_first() =~= elfs.skip(i + 1));
        let frames = symbols[i].frames(lookup_pc);
        if frames.len() > 0 {
            format_functions(frame.pc, &frames, out);
            return;
        }
        i += 1;
    }
    let nothing: Vec<SymbolFrame> = Vec::new();
    assert(symbol_texts(nothing@) =~= seq![]);
    format_functions(frame.pc, &nothing, out);
}

/// Explains why unwinding stopped, given the number of dumped bytes; reaching the
/// outermost frame needs no explanation.
#[verifier::rlimit(40)]
pub fn explain(stop: Stop, dumped: usize) -> (note: Option<String>)
    ensures
        stop_note(stop, dumped as nat) == (match note {
            Some(note) => Some(note@),
            None => None,
        }),
{
    let mut note = String::new();
    match stop {
        Stop::EndOfStack => return None,
        Stop::ReturnAddressLost(pc) => {
            note.append("the function at ");
            push_address(&mut note, pc);
            note.append(" didn't save its return address");
        },
        Stop::NoUnwindInfo(pc) => {
            note.append("no unwind info for ");
            push_address(&mut note, pc);
            note.append("; is the ELF built with debug info?");
        },
        Stop::MemoryUnavailable(addr) => {
            push_address(&mut note, addr);
            note.append(" is outside the dumped stack memory (");
            push_decimal(&mut note, dumped as u64);
            note.append(" bytes)");
        },
        Stop::UnknownRegister(reg) => {
            note.append("the value of ");
            if (reg as usize) < REGISTER_NAMES.len() {
                note.append(REGISTER_NAMES[reg as usize]);
            } else {
                note.append("a register");
            }
            note.append(" is unknown");
        },
        Stop::Unsupported(pc) => {
            note.append("unsupported unwind rule at ");
            push_address(&mut note, pc);
        },
        Stop::TooManyFrames => {
            note.append("more than ");
            push_decimal(&mut note, MAX_FRAMES as u64);
            note.append(" frames");
        },
        Stop::Inconsistent => {
            note.append("inconsistent stack frame");
        },
    }
    assert(note@ =~= stop_note(stop, dumped as nat)->0);
    Some(note)
}

/// Formats a backtrace.
pub fn format_backtrace(
    frames: &Vec<Frame>,
    stop: Stop,
    symbols: &[Symbols<'_>],
    dumped: usize,
) -> (text: String)
    ensures
        text@ == printed_backtrace(frames@, stop, symbol_files(symbols@), dumped as nat),
{
    let ghost elfs = symbol_files(symbols@);
    let mut text = String::new();
    text.append("\r\nBacktrace (decoded from the stack dump):\r\n");
    let ghost head = "\r\nBacktrace (decoded from the stack dump):\r\n"@;
    let mut i: usize = 0;
    assert(frames@.take(0) =~= seq![]);
    assert(text@ =~= head + printed_frames(frames@.take(0), elfs));
    while i < frames.len()
        invariant
            0 <= i <= frames@.len(),
            elfs == symbol_files(symbols@),
            text@ == head + printed_frames(frames@.take(i as int), elfs),
        decreases frames@.len() - i,
    {
        let ghost before = text@;
        format_frame(&frames[i], symbols, &mut text);
        assert(frames@.take(i + 1).drop_last() =~= frames@.take(i as int));
        assert(text@ =~= head + printed_frames(frames@.take(i + 1), elfs));
        i += 1;
    }
    assert(frames@.take(frames@.len() as int) =~= frames@);
    if let Some(note) = explain(stop, dumped) {
        text.append("(backtrace stopped: ");
        text.append(note.as_str());
        text.append(")\r\n");
    }
    text.append("\r\n");
    assert(text@ =~= printed_backtrace(frames@, stop, elfs, dumped as nat));
    text
}

/// Unwinds the stack and prints the resulting backtrace.
pub fn print_backtrace<T: CfiTable>(
    dump: &Dump,
    unwinder: &Unwinder<'_, T>,
    symbols: &[Symbols<'_>],
    out: &mut Vec<Output>,
)
    ensures
        output_texts(final(out)@) == output_texts(old(out)@).push(
            OutputText::Highlighted(dump_backtrace(dump@, unwinder@, symbol_files(symbols@))),
        ),
{
    let (frames, stop) = unwinder.unwind(dump.registers, &dump.memory, MAX_FRAMES);
    let text = format_backtrace(&frames, stop, symbols, dump.memory.len());
    push_output(out, Output::Highlighted(text));
}

/// Adding words loses nothing that could be read before.
pub proof fn law_earlier_words_stay(
    segments: Seq<SegmentWords>,
    addr: u32,
    words: Seq<u32>,
    other: u32,
)
    requires
        dumped_word(segments, other) is Some,
    ensures
        dumped_word(with_words(segments, addr, words), other) == dumped_word(segments, other),
    decreases segments.len(),
{
    if !holds(segments[0], other) {
        let rest = segments.drop_first();
        law_earlier_words_stay(rest, addr, words, other);
        assert(rest.last() == segments.last());
        assert(with_words(segments, addr, words).drop_first() =~= with_words(rest, addr, words));
    }
}

/// Words that were added can be read back, unless an earlier dump covers their
/// addresses. They must be aligned and must not run into the end of the address
/// space, neither by themselves nor with the words right before them.
pub proof fn law_added_words_can_be_read(
    segments: Seq<SegmentWords>,
    addr: u32,
    words: Seq<u32>,
    i: int,
)
    requires
        0 <= i < words.len(),
        addr % 4 == 0,
        addr + 4 * words.len() <= 0x1_0000_0000,
        segments.len() > 0 ==> segments.last().base + 4 * segments.last().words.len()
            < 0x1_0000_0000,
        dumped_word(segments, (addr + 4 * i) as u32) is None,
    ensures
        dumped_word(with_words(segments, addr, words), (addr + 4 * i) as u32) == Some(words[i]),
    decreases segments.len(),
{
    let at = (addr + 4 * i) as u32;
    let all = with_words(segments, addr, words);
    assert(at % 4 == 0);
    if segments.len() == 0 {
        assert(all[0].words[(at - all[0].base) / 4] == words[i]);
    } else if segments.len() == 1 && wrap(
        segments.last().base + 4 * segments.last().words.len(),
    ) == addr {
        let last = segments[0];
        assert(all[0].base == last.base);
        assert((at - last.base) / 4 == last.words.len() + i);
    } else {
        let rest = segments.drop_first();
        assert(!holds(segments[0], at));
        if segments.len() == 1 {
            assert(rest =~= seq![]);
            assert(all.drop_first() =~= with_words(rest, addr, words));
        } else {
            assert(rest.last() == segments.last());
            assert(all.drop_first() =~= with_words(rest, addr, words));
        }
        assert(all[0] == segments[0]);
        law_added_words_can_be_read(rest, addr, words, i);
    }
}

/// Each word that is added makes the dump four bytes longer.
pub proof fn law_added_words_are_counted(segments: Seq<SegmentWords>, addr: u32, words: Seq<u32>)
    ensures
        byte_count(with_words(segments, addr, words)) == byte_count(segments) + 4 * words.len(),
{
    let all = with_words(segments, addr, words);
    if segments.len() > 0 && wrap(segments.last().base + 4 * segments.last().words.len())
        == addr {
        assert(all.drop_last() =~= segments.drop_last());
    } else {
        assert(all.drop_last() =~= segments);
    }
}

/// A tuple of collectors is no collector of its own: each of them sees every
/// line, and the first one to recognize a line decides what it is.
pub proof fn law_first_collector_to_recognize_a_line_decides<A: Collector, B: Collector>(
    state: (A::V, B::V),
    line: Seq<char>,
    elfs: Seq<Seq<u8>>,
)
    ensures
        ({
            let (next, kind) = <(A, B) as Collector>::after(state, line, elfs);
            let (first, first_kind) = A::after(state.0, line, elfs);
            let (second, second_kind) = B::after(state.1, line, elfs);
            &&& next == (first, second)
            &&& first_kind !is Other ==> kind == first_kind
            &&& first_kind is Other ==> kind == second_kind
        }),
{
}

} // verus!
