//! Collection of the stack dump line printed by `esp-backtrace`.
use super::{
    dumped_words, law_added_words_can_be_read, with_words, Collector, Dump, DumpData, Line,
    LineKind, SegmentWords, StackMemory,
};
use crate::object_file::object_symbol_address;
use crate::registers::{only_pc, word_at, RegisterValues, Registers, REG_SP};
use crate::riscv::wrap;
use crate::symbols::{symbol_files, Symbols};
use crate::text::{
    begins_with, chars_of, hex_digits, hex_value, is_lower_hex, lemma_hex_digits, parse_hex,
    starts_with, trim, trimmed,
};
use vstd::prelude::*;
use vstd::slice::slice_subrange;
use vstd::utf8::is_ascii_chars;

verus! {

/// Start of the stack dump line printed by `esp-backtrace`.
pub const MARKER: &'static str = "STACKDUMP: ";

/// The smallest stack dump size `esp-backtrace` can be configured with
/// (`stack_dump_max_size_4k`). A shorter dump ended at the top of the stack.
pub const MIN_MAX_STACK_DUMP_SIZE: usize = 4096;

/// The stack pointer used when the dump doesn't reveal its real value.
pub const PLACEHOLDER_SP: u32 = 0x1000_0000;

/// The index of the first space from `i` on, or the length of the text.
pub open spec fn first_space(text: Seq<char>, i: int) -> int
    decreases text.len() - i,
{
    if 0 <= i < text.len() && text[i] != ' ' {
        first_space(text, i + 1)
    } else {
        i
    }
}

/// The bytes that the first `n` pairs of characters are.
pub open spec fn pair_bytes(text: Seq<char>, n: nat) -> Option<Seq<u8>>
    decreases n,
{
    if n == 0 {
        Some(seq![])
    } else {
        match (
            pair_bytes(text, (n - 1) as nat),
            hex_value(text.subrange(2 * n - 2, 2 * n as int), 0xff),
        ) {
            (Some(bytes), Some(byte)) => Some(bytes.push(byte as u8)),
            _ => None,
        }
    }
}

/// The bytes that a text of pairs of hexadecimal digits is. A pair may also be a `+`
/// sign and a digit, and an unpaired character at the end doesn't count.
pub open spec fn dumped_bytes_of(text: Seq<char>) -> Option<Seq<u8>> {
    if is_ascii_chars(text) {
        pair_bytes(text, text.len() / 2)
    } else {
        None
    }
}

/// The program counter and the stack bytes of a stack dump line.
pub open spec fn dump_line(line: Seq<char>) -> Option<(u32, Seq<u8>)> {
    let rest = trimmed(line.skip(MARKER@.len() as int));
    let space = first_space(rest, 0);
    if begins_with(line, MARKER@) && space < rest.len() {
        match (
            hex_value(rest.take(space), u32::MAX as nat),
            dumped_bytes_of(rest.skip(space + 1)),
        ) {
            (Some(pc), Some(bytes)) => Some((pc as u32, bytes)),
            _ => None,
        }
    } else {
        None
    }
}

/// The little-endian words that the bytes are, without an incomplete one at the
/// end.
pub open spec fn words_of(bytes: Seq<u8>) -> Seq<u32> {
    Seq::new(bytes.len() / 4, |i: int| word_of(bytes, i))
}

/// Word `i` of the bytes, which are in little-endian order.
pub open spec fn word_of(bytes: Seq<u8>, i: int) -> u32 {
    (bytes[4 * i] + bytes[4 * i + 1] * 0x100 + bytes[4 * i + 2] * 0x1_0000 + bytes[4 * i + 3]
        * 0x100_0000) as u32
}

/// The address of the top of the stack, per the first of the ELF files that has
/// it.
pub open spec fn stack_start(elfs: Seq<Seq<u8>>) -> Option<u64>
    decreases elfs.len(),
{
    if elfs.len() == 0 {
        None
    } else {
        match object_symbol_address(elfs[0], "_stack_start"@) {
            Some(address) => Some(address),
            None => stack_start(elfs.drop_first()),
        }
    }
}

/// The dump with the given program counter and stack bytes. A dump that ended at
/// the top of the stack reveals the stack pointer, if that is where `stack_start`
/// is.
pub open spec fn dump_of(pc: u32, bytes: Seq<u8>, stack_start: Option<u64>) -> DumpData {
    let (sp, sp_is_placeholder) = match stack_start {
        Some(top) if bytes.len() < MIN_MAX_STACK_DUMP_SIZE => (wrap(top - bytes.len()), false),
        _ => (PLACEHOLDER_SP, true),
    };
    DumpData {
        registers: RegisterValues {
            pc_is_return_address: true,
            sp_is_placeholder,
            ..only_pc(pc).with(REG_SP as int, Some(sp))
        },
        memory: with_words(Seq::<SegmentWords>::empty(), sp, words_of(bytes)),
    }
}

/// The dump in a stack dump line.
pub open spec fn parsed(line: Seq<char>, elfs: Seq<Seq<u8>>) -> Option<DumpData> {
    match dump_line(line) {
        Some((pc, bytes)) => Some(dump_of(pc, bytes, stack_start(elfs))),
        None => None,
    }
}

/// Collects the stack dump line of `esp-backtrace`:
///
/// ```text
/// STACKDUMP: <pc> <stack bytes as hex, starting at sp>
/// ```
///
/// `pc` is the return address of the call which took the snapshot. The dump
/// extends up to the top of the stack or up to a configured maximum size,
/// whichever comes first; in the former case the stack pointer is recovered
/// from the `_stack_start` symbol, otherwise a placeholder is used.
#[derive(Debug, Default)]
pub struct EspBacktrace;

impl View for EspBacktrace {
    type V = ();

    open spec fn view(&self) -> () {
        ()
    }
}

impl Collector for EspBacktrace {
    open spec fn after(state: (), line: Seq<char>, elfs: Seq<Seq<u8>>) -> ((), LineKind) {
        match parsed(line, elfs) {
            Some(dump) => ((), LineKind::Complete { dump, includes_line: true }),
            None => ((), LineKind::Other),
        }
    }

    fn feed(&mut self, line: &str, symbols: &[Symbols<'_>]) -> (kind: Line) {
        match parse(line, symbols) {
            Some(dump) => Line::Complete { dump: Box::new(dump), includes_line: true },
            None => Line::Other,
        }
    }
}

/// Parses the bytes of a text of pairs of hexadecimal digits.
fn parse_bytes(text: &[char]) -> (bytes: Option<Vec<u8>>)
    ensures
        dumped_bytes_of(text@) == (match bytes {
            Some(bytes) => Some(bytes@),
            None => None,
        }),
{
    let mut i: usize = 0;
    while i < text.len()
        invariant
            0 <= i <= text@.len(),
            forall|j: int| 0 <= j < i ==> '\0' <= #[trigger] text@[j] <= '\u{7f}',
        decreases text@.len() - i,
    {
        if !matches!(text[i], '\0'..='\u{7f}') {
            assert(!is_ascii_chars(text@)) by {
                assert(!('\0' <= text@[i as int] <= '\u{7f}'));
            }
            return None;
        }
        i += 1;
    }
    let count: usize = text.len() / 2;
    let mut bytes: Vec<u8> = Vec::new();
    let mut n: usize = 0;
    while n < count
        invariant
            0 <= n <= count == text@.len() / 2,
            text@.len() <= usize::MAX,
            pair_bytes(text@, n as nat) == Some(bytes@),
            is_ascii_chars(text@),
        decreases count - n,
    {
        match parse_hex(slice_subrange(text, 2 * n, 2 * n + 2), 0xff) {
            Some(byte) => bytes.push(byte as u8),
            None => {
                proof {
                    lemma_bad_pair(text@, (n + 1) as nat, count as nat);
                }
                return None;
            },
        }
        n += 1;
    }
    Some(bytes)
}

/// A pair that isn't a byte makes a text with more pairs no bytes either.
proof fn lemma_bad_pair(text: Seq<char>, n: nat, count: nat)
    requires
        n <= count,
        pair_bytes(text, n) is None,
    ensures
        pair_bytes(text, count) is None,
    decreases count,
{
    if n < count {
        lemma_bad_pair(text, n, (count - 1) as nat);
    }
}

/// Makes little-endian words of the bytes.
pub fn to_words(bytes: &Vec<u8>) -> (words: Vec<u32>)
    ensures
        words@ == words_of(bytes@),
{
    let count: usize = bytes.len() / 4;
    let mut words: Vec<u32> = Vec::new();
    let mut i: usize = 0;
    while i < count
        invariant
            0 <= i <= count == bytes@.len() / 4,
            bytes@.len() <= usize::MAX,
            words@ == words_of(bytes@).take(i as int),
        decreases count - i,
    {
        let at: usize = 4 * i;
        let word: u32 = bytes[at] as u32 + bytes[at + 1] as u32 * 0x100 + bytes[at + 2] as u32
            * 0x1_0000 + bytes[at + 3] as u32 * 0x100_0000;
        assert(words_of(bytes@).take(i + 1) =~= words_of(bytes@).take(i as int).push(word));
        words.push(word);
        i += 1;
    }
    assert(words_of(bytes@).take(count as int) =~= words_of(bytes@));
    words
}

/// Finds the address of the top of the stack.
fn find_stack_start(symbols: &[Symbols<'_>]) -> (address: Option<u64>)
    ensures
        address == stack_start(symbol_files(symbols@)),
{
    let ghost elfs = symbol_files(symbols@);
    let mut i: usize = 0;
    assert(elfs.skip(0) =~= elfs);
    while i < symbols.len()
        invariant
            0 <= i <= symbols@.len(),
            elfs == symbol_files(symbols@),
            stack_start(elfs) == stack_start(elfs.skip(i as int)),
        decreases symbols@.len() - i,
    {
        assert(elfs.skip(i as int)[0] == symbols@[i as int]@);
        assert(elfs.skip(i as int).drop_first() =~= elfs.skip(i + 1));
        let address = symbols[i].symbol_address("_stack_start");
        if address.is_some() {
            return address;
        }
        i += 1;
    }
    None
}

/// Makes a dump of a program counter and stack bytes.
pub fn to_dump(pc: u32, bytes: &Vec<u8>, stack_start: Option<u64>) -> (dump: Dump)
    ensures
        dump@ == dump_of(pc, bytes@, stack_start),
{
    let mut registers = Registers::new(pc);
    registers.pc_is_return_address = true;
    let sp: u32 = match stack_start {
        Some(top) if bytes.len() < MIN_MAX_STACK_DUMP_SIZE => {
            let top: u32 = (top % 0x1_0000_0000) as u32;
            top.wrapping_sub(bytes.len() as u32)
        },
        _ => {
            registers.sp_is_placeholder = true;
            PLACEHOLDER_SP
        },
    };
    registers.set(REG_SP, sp);
    let mut memory = StackMemory::default();
    memory.push(sp, &to_words(bytes));
    Dump { registers, memory }
}

/// Parses the program counter and the stack bytes of a stack dump line.
pub fn parse_line(line: &str) -> (parts: Option<(u32, Vec<u8>)>)
    ensures
        dump_line(line@) == (match parts {
            Some((pc, bytes)) => Some((pc, bytes@)),
            None => None,
        }),
{
    let chars = chars_of(line);
    if !starts_with(&chars, MARKER) {
        return None;
    }
    let marker = chars_of(MARKER);
    let after = slice_subrange(chars.as_slice(), marker.len(), chars.len());
    assert(after@ =~= line@.skip(MARKER@.len() as int));
    let (start, end) = trim(after);
    let rest = slice_subrange(after, start, end);
    let mut space: usize = 0;
    while space < rest.len() && rest[space] != ' '
        invariant
            0 <= space <= rest@.len(),
            first_space(rest@, 0) == first_space(rest@, space as int),
        decreases rest@.len() - space,
    {
        space += 1;
    }
    if space == rest.len() {
        return None;
    }
    let Some(pc) = parse_hex(slice_subrange(rest, 0, space), u32::MAX) else {
        return None;
    };
    assert(rest@.subrange(0, space as int) =~= rest@.take(space as int));
    assert(rest@.subrange(space + 1, rest@.len() as int) =~= rest@.skip(space + 1));
    let Some(bytes) = parse_bytes(slice_subrange(rest, space + 1, rest.len())) else {
        return None;
    };
    Some((pc, bytes))
}

/// Parses the stack dump line of `esp-backtrace`, see [`EspBacktrace`].
pub fn parse(line: &str, symbols: &[Symbols<'_>]) -> (dump: Option<Dump>)
    ensures
        parsed(line@, symbol_files(symbols@)) == (match dump {
            Some(dump) => Some(dump@),
            None => None,
        }),
{
    match parse_line(line) {
        Some((pc, bytes)) => Some(to_dump(pc, &bytes, find_stack_start(symbols))),
        None => None,
    }
}

/// A dump that is shorter than the smallest maximum size ends at the top of the
/// stack, if its address is known: that is where the stack pointer comes from.
pub proof fn law_short_dump_ends_at_stack_start(pc: u32, bytes: Seq<u8>, top: u64)
    requires
        bytes.len() < MIN_MAX_STACK_DUMP_SIZE,
    ensures
        ({
            let registers = dump_of(pc, bytes, Some(top)).registers;
            &&& !registers.sp_is_placeholder
            &&& registers.get(REG_SP as int) matches Some(sp)
            &&& wrap(sp + bytes.len()) == wrap(top as int)
        }),
{
}

/// A dump that doesn't reveal the stack pointer is put at a placeholder.
pub proof fn law_other_dump_is_at_placeholder(pc: u32, bytes: Seq<u8>, top: Option<u64>)
    requires
        top is None || bytes.len() >= MIN_MAX_STACK_DUMP_SIZE,
    ensures
        dump_of(pc, bytes, top).registers.sp_is_placeholder,
        dump_of(pc, bytes, top).registers.get(REG_SP as int) == Some(PLACEHOLDER_SP),
{
}

/// The words of a dump can be read from the stack pointer upwards, as long as it
/// is aligned and the dump doesn't run into the end of the address space.
pub proof fn law_dumped_words_start_at_sp(
    pc: u32,
    bytes: Seq<u8>,
    top: Option<u64>,
    sp: u32,
    i: int,
)
    requires
        dump_of(pc, bytes, top).registers.get(REG_SP as int) == Some(sp),
        sp % 4 == 0,
        sp + bytes.len() <= 0x1_0000_0000,
        0 <= i < bytes.len() / 4,
    ensures
        word_at(dumped_words(dump_of(pc, bytes, top).memory), (sp + 4 * i) as u32) == Some(
            word_of(bytes, i),
        ),
{
    law_added_words_can_be_read(Seq::<SegmentWords>::empty(), sp, words_of(bytes), i);
}

/// The bytes as pairs of hexadecimal digits.
pub open spec fn hex_bytes(bytes: Seq<u8>) -> Seq<char>
    decreases bytes.len(),
{
    if bytes.len() == 0 {
        seq![]
    } else {
        hex_bytes(bytes.drop_last()) + hex_digits(bytes.last() as nat, 2)
    }
}

/// The stack dump line with the given program counter and stack bytes.
pub open spec fn rendered(pc: u32, bytes: Seq<u8>) -> Seq<char> {
    MARKER@ + hex_digits(pc as nat, 8) + " "@ + hex_bytes(bytes)
}

/// What is known of the pairs of digits of some bytes.
proof fn lemma_hex_bytes(bytes: Seq<u8>)
    ensures
        hex_bytes(bytes).len() == 2 * bytes.len(),
        forall|i: int|
            0 <= i < hex_bytes(bytes).len() ==> is_lower_hex(#[trigger] hex_bytes(bytes)[i]),
        pair_bytes(hex_bytes(bytes), bytes.len()) == Some(bytes),
    decreases bytes.len(),
{
    if bytes.len() > 0 {
        let rest = bytes.drop_last();
        let text = hex_bytes(bytes);
        lemma_hex_bytes(rest);
        lemma_hex_digits(bytes.last() as nat, 2);
        assert(text.subrange(2 * bytes.len() - 2, 2 * bytes.len() as int) =~= hex_digits(
            bytes.last() as nat,
            2,
        ));
        assert(text.take(hex_bytes(rest).len() as int) =~= hex_bytes(rest));
        lemma_pair_bytes_prefix(hex_bytes(rest), text, rest.len());
        assert(rest.push(bytes.last()) =~= bytes);
    }
}

/// The bytes that pairs of characters are don't depend on what follows them.
proof fn lemma_pair_bytes_prefix(text: Seq<char>, more: Seq<char>, n: nat)
    requires
        2 * n <= text.len() <= more.len(),
        more.take(text.len() as int) == text,
    ensures
        pair_bytes(more, n) == pair_bytes(text, n),
    decreases n,
{
    if n > 0 {
        lemma_pair_bytes_prefix(text, more, (n - 1) as nat);
        assert forall|i: int| 2 * n - 2 <= i < 2 * n implies more[i] == text[i] by {
            assert(more.take(text.len() as int)[i] == more[i]);
        }
        assert(more.subrange(2 * n - 2, 2 * n as int) =~= text.subrange(
            2 * n - 2,
            2 * n as int,
        ));
    }
}

/// A text that begins and ends with a digit has no white space around it.
proof fn lemma_digits_are_not_trimmed(text: Seq<char>)
    requires
        text.len() > 0,
        is_lower_hex(text[0]),
        is_lower_hex(text.last()),
    ensures
        trimmed(text) == text,
{
}

/// The stack dump line that `esp-backtrace` prints is parsed to the program
/// counter and the stack bytes in it, if there are any.
#[verifier::spinoff_prover]
pub proof fn law_printed_dump_is_parsed(pc: u32, bytes: Seq<u8>)
    requires
        bytes.len() > 0,
    ensures
        dump_line(rendered(pc, bytes)) == Some((pc, bytes)),
{
    let line = rendered(pc, bytes);
    let number = hex_digits(pc as nat, 8);
    let text = hex_bytes(bytes);
    let rest = number + " "@ + text;
    reveal_strlit(" ");
    lemma_hex_digits(pc as nat, 8);
    lemma_hex_bytes(bytes);
    assert(line.skip(MARKER@.len() as int) =~= rest);
    assert(line.take(MARKER@.len() as int) =~= MARKER@);
    assert(rest[0] == number[0]);
    assert(rest.last() == text[text.len() - 1]);
    lemma_digits_are_not_trimmed(rest);
    assert forall|i: int| 0 <= i < 8 implies rest[i] != ' ' by {
        assert(rest[i] == number[i]);
    }
    assert(rest[8] == ' ');
    lemma_first_space(rest, 0, 8);
    assert(rest.take(8) =~= number);
    assert(rest.skip(9) =~= text);
    assert(is_ascii_chars(text));
}

/// The first space is where no character before is one.
proof fn lemma_first_space(text: Seq<char>, i: int, space: int)
    requires
        0 <= i <= space < text.len(),
        text[space] == ' ',
        forall|j: int| i <= j < space ==> text[j] != ' ',
    ensures
        first_space(text, i) == space,
    decreases space - i,
{
    if i < space {
        lemma_first_space(text, i + 1, space);
    }
}

} // verus!
