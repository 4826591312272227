//! What holds of the stack dumps that are collected from the output.
use crate::object_file::object_symbol_address;
use crate::patterns::{is_header, register_pairs};
use crate::registers::REGISTER_NAMES;
use crate::riscv::wrap;
use crate::stack_dump::esp_backtrace::{
    dump_line, dump_of, first_space, pair_bytes, parsed, stack_start, word_of, EspBacktrace,
};
use crate::stack_dump::esp_idf::{
    has_pairs, register_number, stack_words, Collected, EspIdf, State,
};
use crate::stack_dump::{with_words, Collector, LineKind};
use crate::text::{begins_with, hex_value, trimmed};
use vstd::prelude::*;
use vstd::utf8::is_ascii_chars;

verus! {

/// The registers of every dump that is made of a stack dump line have the program counter of
/// that line, and mark it as a return address, however long the dump is and whether or not
/// the top of the stack is known. Of the other registers only the stack pointer is known.
pub proof fn law_pc_of_dump_is_return_address(
    pc: u32,
    bytes: Seq<u8>,
    top: Option<u64>,
    line: Seq<char>,
    elfs: Seq<Seq<u8>>,
    reg: int,
)
    ensures
        dump_of(pc, bytes, top).registers.pc == pc,
        dump_of(pc, bytes, top).registers.pc_is_return_address,
        reg != 0 && reg != 2 ==> dump_of(pc, bytes, top).registers.get(reg) is None,
        parsed(line, elfs) is Some <==> dump_line(line) is Some,
        parsed(line, elfs) matches Some(dump) ==> {
            &&& dump.registers.pc_is_return_address
            &&& dump_line(line) matches Some((line_pc, _)) && dump.registers.pc == line_pc
        },
        parsed(line, elfs) matches Some(dump) ==> (dump_line(line) matches Some((line_pc, payload))
            && dump == dump_of(line_pc, payload, stack_start(elfs))),
{
}

/// The stack pointer of a dump of less than 4096 bytes is where it must be for the dump to
/// end at the top of the stack, if that is known; any other dump is put at 0x10000000, as a
/// placeholder. The dumped words are there.
pub proof fn law_dump_is_where_it_was_taken(pc: u32, bytes: Seq<u8>, top: Option<u64>)
    ensures
        ({
            let dump = dump_of(pc, bytes, top);
            let sp = dump.registers.get(2)->0;
            &&& dump.registers.get(2) is Some
            &&& dump.memory.len() == 1
            &&& dump.memory[0].base == sp
            &&& dump.memory[0].words.len() == bytes.len() / 4
            &&& forall|i: int|
                0 <= i < bytes.len() / 4 ==> {
                    let word = #[trigger] dump.memory[0].words[i];
                    &&& word % 0x100 == bytes[4 * i]
                    &&& word / 0x100 % 0x100 == bytes[4 * i + 1]
                    &&& word / 0x1_0000 % 0x100 == bytes[4 * i + 2]
                    &&& word / 0x100_0000 == bytes[4 * i + 3]
                }
            &&& if bytes.len() < 4096 && top is Some {
                !dump.registers.sp_is_placeholder && (sp + bytes.len() - top->0) % 0x1_0000_0000
                    == 0
            } else {
                dump.registers.sp_is_placeholder && sp == 0x1000_0000
            }
        }),
{
    let dump = dump_of(pc, bytes, top);
    let sp = dump.registers.get(2)->0;
    assert forall|i: int| 0 <= i < bytes.len() / 4 implies {
        let word = #[trigger] dump.memory[0].words[i];
        &&& word % 0x100 == bytes[4 * i]
        &&& word / 0x100 % 0x100 == bytes[4 * i + 1]
        &&& word / 0x1_0000 % 0x100 == bytes[4 * i + 2]
        &&& word / 0x100_0000 == bytes[4 * i + 3]
    } by {
        assert(dump.memory[0].words[i] == word_of(bytes, i));
    }
    if let Some(top) = top {
        if bytes.len() < 4096 {
            let there = top - bytes.len();
            assert(sp == wrap(there));
            vstd::arithmetic::div_mod::lemma_fundamental_div_mod(there, 0x1_0000_0000);
            vstd::arithmetic::div_mod::lemma_mod_multiples_basic(
                -(there / 0x1_0000_0000),
                0x1_0000_0000,
            );
        }
    }
}

/// The top of the stack is that of the first ELF file which has the symbol for it.
pub proof fn law_first_stack_start_counts(elfs: Seq<Seq<u8>>, k: int)
    requires
        0 <= k <= elfs.len(),
        forall|i: int|
            0 <= i < k ==> object_symbol_address(#[trigger] elfs[i], "_stack_start"@) is None,
        k < elfs.len() ==> object_symbol_address(elfs[k], "_stack_start"@) is Some,
    ensures
        stack_start(elfs) == if k < elfs.len() {
            object_symbol_address(elfs[k], "_stack_start"@)
        } else {
            None
        },
    decreases k,
{
    if k > 0 {
        let rest = elfs.drop_first();
        assert(object_symbol_address(elfs[0], "_stack_start"@) is None);
        assert forall|i: int| 0 <= i < k - 1 implies object_symbol_address(
            #[trigger] rest[i],
            "_stack_start"@,
        ) is None by {
            assert(rest[i] == elfs[i + 1]);
        }
        law_first_stack_start_counts(rest, k - 1);
    }
}

/// A stack dump line is `STACKDUMP: `, a number, a space and pairs of digits, with white
/// space around all that follows the colon: it is parsed to that number and a byte for each
/// pair.
pub proof fn law_stack_dump_line_is_parsed(
    line: Seq<char>,
    rest: Seq<char>,
    number: Seq<char>,
    payload: Seq<char>,
    pc: u32,
    bytes: Seq<u8>,
)
    requires
        line == "STACKDUMP: "@ + rest,
        trimmed(rest) == number + seq![' '] + payload,
        !number.contains(' '),
        hex_value(number, 0xffff_ffff) == Some(pc as nat),
        is_ascii_chars(payload),
        bytes.len() == payload.len() / 2,
        forall|k: int|
            0 <= k < bytes.len() ==> hex_value(payload.subrange(2 * k, 2 * k + 2), 0xff) == Some(
                #[trigger] bytes[k] as nat,
            ),
    ensures
        dump_line(line) == Some((pc, bytes)),
{
    let text = trimmed(rest);
    let n = number.len() as int;
    let marker = "STACKDUMP: "@;
    assert(line.take(marker.len() as int) =~= marker);
    assert(line.skip(marker.len() as int) =~= rest);
    assert forall|i: int| 0 <= i < n implies text[i] != ' ' by {
        assert(text[i] == number[i]);
        assert(number.contains(number[i]));
    }
    assert(text[n] == ' ');
    lemma_first_space_is(text, 0, n);
    assert(text.take(n) =~= number);
    assert(text.skip(n + 1) =~= payload);
    lemma_pairs(payload, bytes, bytes.len());
    assert(bytes.take(bytes.len() as int) =~= bytes);
}

/// Anything else isn't parsed: a line that doesn't begin with `STACKDUMP: `, one without a
/// space after that, one whose program counter isn't a number, or one with a pair that isn't
/// one.
pub proof fn law_malformed_stack_dump_line_is_rejected(line: Seq<char>, k: int)
    ensures
        !"STACKDUMP: "@.is_prefix_of(line) ==> dump_line(line) is None,
        "STACKDUMP: "@.is_prefix_of(line) ==> {
            let text = trimmed(line.skip("STACKDUMP: "@.len() as int));
            &&& !text.contains(' ') ==> dump_line(line) is None
            &&& forall|n: int|
                0 <= n < text.len() && #[trigger] text[n] == ' ' && !text.take(n).contains(' ')
                    ==> {
                    let payload = text.skip(n + 1);
                    &&& hex_value(text.take(n), 0xffff_ffff) is None ==> dump_line(line) is None
                    &&& !is_ascii_chars(payload) ==> dump_line(line) is None
                    &&& 0 <= k < payload.len() / 2 && hex_value(
                        payload.subrange(2 * k, 2 * k + 2),
                        0xff,
                    ) is None ==> dump_line(line) is None
                }
        },
{
    let marker = "STACKDUMP: "@;
    if marker.len() <= line.len() {
        assert(line.take(marker.len() as int) =~= line.subrange(0, marker.len() as int));
    }
    if marker.is_prefix_of(line) {
        let text = trimmed(line.skip(marker.len() as int));
        lemma_first_space(text, 0);
        let space = first_space(text, 0);
        assert(!text.contains(' ') ==> space == text.len());
        assert forall|n: int|
            0 <= n < text.len() && #[trigger] text[n] == ' ' && !text.take(n).contains(
                ' ',
            ) implies ({
            let payload = text.skip(n + 1);
            &&& hex_value(text.take(n), 0xffff_ffff) is None ==> dump_line(line) is None
            &&& !is_ascii_chars(payload) ==> dump_line(line) is None
            &&& 0 <= k < payload.len() / 2 && hex_value(
                payload.subrange(2 * k, 2 * k + 2),
                0xff,
            ) is None ==> dump_line(line) is None
        }) by {
            assert forall|i: int| 0 <= i < n implies text[i] != ' ' by {
                assert(text.take(n)[i] == text[i]);
            }
            lemma_first_space_is(text, 0, n);
            let payload = text.skip(n + 1);
            if 0 <= k < payload.len() / 2 && hex_value(
                payload.subrange(2 * k, 2 * k + 2),
                0xff,
            ) is None {
                lemma_bad_pair(payload, k, payload.len() / 2);
            }
        }
    }
}

/// The first space is where it is, or at the end of the text.
proof fn lemma_first_space(text: Seq<char>, i: int)
    requires
        0 <= i <= text.len(),
    ensures
        i <= first_space(text, i) <= text.len(),
        first_space(text, i) < text.len() ==> text[first_space(text, i)] == ' ',
    decreases text.len() - i,
{
    if i < text.len() && text[i] != ' ' {
        lemma_first_space(text, i + 1);
    }
}

/// The first space is where no character before is one.
proof fn lemma_first_space_is(text: Seq<char>, i: int, space: int)
    requires
        0 <= i <= space < text.len(),
        text[space] == ' ',
        forall|j: int| i <= j < space ==> text[j] != ' ',
    ensures
        first_space(text, i) == space,
    decreases space - i,
{
    if i < space {
        lemma_first_space_is(text, i + 1, space);
    }
}

/// Pairs of digits are bytes.
proof fn lemma_pairs(text: Seq<char>, bytes: Seq<u8>, n: nat)
    requires
        n <= bytes.len(),
        bytes.len() == text.len() / 2,
        forall|k: int|
            0 <= k < bytes.len() ==> hex_value(text.subrange(2 * k, 2 * k + 2), 0xff) == Some(
                #[trigger] bytes[k] as nat,
            ),
    ensures
        pair_bytes(text, n) == Some(bytes.take(n as int)),
    decreases n,
{
    if n == 0 {
        assert(bytes.take(0) =~= seq![]);
    } else {
        lemma_pairs(text, bytes, (n - 1) as nat);
        let byte = bytes[n - 1];
        assert(2 * (n - 1) + 2 == 2 * n);
        assert(bytes.take(n as int) =~= bytes.take(n - 1).push(byte));
    }
}

/// A pair that isn't a byte makes a text with more pairs no bytes either.
proof fn lemma_bad_pair(text: Seq<char>, k: int, n: nat)
    requires
        0 <= k < n,
        hex_value(text.subrange(2 * k, 2 * k + 2), 0xff) is None,
    ensures
        pair_bytes(text, n) is None,
    decreases n,
{
    if k < n - 1 {
        lemma_bad_pair(text, k, (n - 1) as nat);
    }
}

/// The collector of `esp-backtrace` dumps tells the lines that are one from the others, and
/// a dump is all in one line.
pub proof fn law_stack_dump_line_is_a_dump(line: Seq<char>, elfs: Seq<Seq<u8>>)
    ensures
        ({
            let kind = <EspBacktrace as Collector>::after((), line, elfs).1;
            match parsed(line, elfs) {
                Some(expected) => {
                    &&& kind matches LineKind::Complete { dump, includes_line }
                    &&& dump == expected
                    &&& includes_line
                },
                None => kind is Other,
            }
        }),
{
}

/// The number of a register is where its name is among those of all registers.
pub proof fn law_register_is_found_by_name(name: Seq<char>, i: int)
    requires
        0 <= i <= 32,
    ensures
        match register_number(name, i) {
            Some(reg) => i <= reg < 32 && REGISTER_NAMES[reg]@ == name && forall|j: int|
                i <= j < reg ==> (#[trigger] REGISTER_NAMES[j])@ != name,
            None => forall|j: int| i <= j < 32 ==> (#[trigger] REGISTER_NAMES[j])@ != name,
        },
    decreases 32 - i,
{
    if i < 32 && REGISTER_NAMES[i]@ != name {
        law_register_is_found_by_name(name, i + 1);
    }
}

/// The last value that is given for a register, or for the program counter, in the pairs of
/// a register dump line.
pub open spec fn last_value(pairs: Seq<(Seq<char>, Seq<char>)>, name: Seq<char>) -> Option<u32>
    decreases pairs.len(),
{
    if pairs.len() == 0 {
        None
    } else {
        match hex_value(pairs.last().1, 0xffff_ffff) {
            Some(value) if pairs.last().0 == name => Some(value as u32),
            _ => last_value(pairs.drop_last(), name),
        }
    }
}

/// The value of a register after the pairs of a line.
pub open spec fn value_after(
    before: Option<u32>,
    pairs: Seq<(Seq<char>, Seq<char>)>,
    name: Seq<char>,
) -> Option<u32> {
    match last_value(pairs, name) {
        Some(value) => Some(value),
        None => before,
    }
}

/// What is known of a register.
pub open spec fn known(collected: Collected, reg: int) -> Option<u32> {
    match collected.registers {
        Some(registers) => registers.get(reg),
        None => None,
    }
}

/// The pairs of a line set the registers they name, and no others.
proof fn lemma_pairs_set_registers(
    collected: Collected,
    pairs: Seq<(Seq<char>, Seq<char>)>,
    reg: int,
)
    requires
        0 < reg < 32,
        forall|j: int| 0 <= j < reg ==> (#[trigger] REGISTER_NAMES[j])@ != REGISTER_NAMES[reg]@,
        REGISTER_NAMES[reg]@ != "MEPC"@,
        collected.registers matches Some(registers) ==> registers.regs.len() == 32,
    ensures
        ({
            let after = collected.with_pairs(pairs);
            &&& known(after, reg) == value_after(
                known(collected, reg),
                pairs,
                REGISTER_NAMES[reg]@,
            )
            &&& after.pc == value_after(collected.pc, pairs, "MEPC"@)
            &&& after.registers matches Some(registers) ==> registers.regs.len() == 32
                && registers.sp_is_placeholder == (collected.registers matches Some(r)
                && r.sp_is_placeholder) && registers.pc_is_return_address == (
            collected.registers matches Some(r) && r.pc_is_return_address)
            &&& after.state == collected.state
            &&& after.stack == collected.stack
            &&& collected.registers is Some ==> after.registers is Some
        }),
    decreases pairs.len(),
{
    if pairs.len() > 0 {
        lemma_pairs_set_registers(collected, pairs.drop_last(), reg);
        let name = pairs.last().0;
        law_register_is_found_by_name(name, 0);
        law_register_is_found_by_name(REGISTER_NAMES[reg]@, 0);
    }
}

/// A line of a register dump sets the registers that it names to the values it gives, and
/// the program counter if that is among them. What it doesn't name is unchanged.
pub proof fn law_register_line_sets_registers(collected: Collected, line: Seq<char>, reg: int)
    requires
        collected.state is Registers,
        !is_header(line),
        !"Stack memory:"@.is_prefix_of(line),
        has_pairs(register_pairs(line, 0)),
        0 < reg < 32,
        forall|j: int| 0 <= j < reg ==> (#[trigger] REGISTER_NAMES[j])@ != REGISTER_NAMES[reg]@,
        REGISTER_NAMES[reg]@ != "MEPC"@,
        collected.registers matches Some(registers) ==> registers.regs.len() == 32,
    ensures
        ({
            let (after, kind) = collected.next(line);
            let pairs = register_pairs(line, 0);
            &&& kind is Other
            &&& after.state is Registers
            &&& after.stack == collected.stack
            &&& known(after, reg) == value_after(
                known(collected, reg),
                pairs,
                REGISTER_NAMES[reg]@,
            )
            &&& after.pc == value_after(collected.pc, pairs, "MEPC"@)
            &&& after.pc matches Some(pc) ==> (after.registers matches Some(registers)
                && registers.pc == pc)
            &&& after.registers matches Some(registers) ==> registers.regs.len() == 32
                && registers.sp_is_placeholder == (collected.registers matches Some(r)
                && r.sp_is_placeholder) && registers.pc_is_return_address == (
            collected.registers matches Some(r) && r.pc_is_return_address)
        }),
{
    lemma_stack_header(line);
    let pairs = register_pairs(line, 0);
    lemma_pairs_set_registers(collected, pairs, reg);
}

/// Which lines begin the dump of the stack memory.
proof fn lemma_stack_header(line: Seq<char>)
    ensures
        begins_with(line, "Stack memory:"@) == "Stack memory:"@.is_prefix_of(line),
{
    let prefix = "Stack memory:"@;
    if prefix.len() <= line.len() {
        assert(line.take(prefix.len() as int) =~= line.subrange(0, prefix.len() as int));
    }
}

/// While registers are collected, a header starts anew, `Stack memory:` goes on to the stack
/// if registers were seen, an empty line changes nothing, and anything else gives up. All of
/// that isn't part of the stack memory.
pub proof fn law_register_dump_goes_on_or_is_given_up(collected: Collected, line: Seq<char>)
    requires
        collected.state is Registers,
    ensures
        ({
            let (after, kind) = collected.next(line);
            let fresh = Collected {
                state: State::Registers,
                pc: None,
                registers: None,
                stack: seq![],
            };
            let idle = Collected { state: State::Idle, ..fresh };
            &&& kind is Other
            &&& is_header(line) ==> after == fresh
            &&& !is_header(line) && "Stack memory:"@.is_prefix_of(line) ==> after == (
            if collected.registers is Some {
                Collected { state: State::Stack, ..collected }
            } else {
                idle
            })
            &&& !is_header(line) && !"Stack memory:"@.is_prefix_of(line) && !has_pairs(
                register_pairs(line, 0),
            ) && trimmed(line).len() > 0 ==> after == idle
            &&& !is_header(line) && !"Stack memory:"@.is_prefix_of(line) && register_pairs(
                line,
                0,
            ).len() == 0 && trimmed(line).len() == 0 && (collected.pc matches Some(pc) ==> (
            collected.registers matches Some(registers) && registers.pc == pc)) ==> after
                == collected
        }),
{
    lemma_stack_header(line);
    if register_pairs(line, 0).len() == 0 {
        assert(collected.with_pairs(register_pairs(line, 0)) == collected);
        assert(collected.with_pc() =~= collected || !(collected.pc matches Some(pc) ==> (
        collected.registers matches Some(registers) && registers.pc == pc)));
    }
}

/// While nothing is collected, a header starts a dump, and everything else is ignored.
pub proof fn law_header_starts_dump(collected: Collected, line: Seq<char>)
    requires
        collected.state is Idle,
    ensures
        ({
            let (after, kind) = collected.next(line);
            &&& kind is Other
            &&& !is_header(line) ==> after == collected
            &&& is_header(line) ==> after.state is Registers && after.pc is None
                && after.registers is None && after.stack.len() == 0
        }),
{
}

/// A line of the stack memory adds its words, and changes nothing else.
pub proof fn law_stack_line_adds_words(
    collected: Collected,
    line: Seq<char>,
    addr: u32,
    words: Seq<u32>,
)
    requires
        collected.state is Stack,
        stack_words(line) == Some((addr, words)),
    ensures
        ({
            let (after, kind) = collected.next(line);
            &&& kind is Data
            &&& after.stack == with_words(collected.stack, addr, words)
            &&& after.state is Stack
            &&& after.pc == collected.pc
            &&& after.registers == collected.registers
        }),
{
}

/// The dump that a line completes has the registers and the stack memory that were
/// collected before it, and the line isn't part of it.
pub proof fn law_dump_is_what_was_collected(collected: Collected, line: Seq<char>)
    requires
        collected.state is Stack,
        stack_words(line) is None,
    ensures
        collected.next(line).1 matches LineKind::Complete { dump, includes_line } && {
            &&& !includes_line
            &&& dump.memory == collected.stack
            &&& collected.registers matches Some(registers) ==> dump.registers == registers
        },
        !is_header(line) ==> collected.next(line).0.state is Idle,
{
}

/// The collector of ESP-IDF dumps doesn't depend on the ELF files.
pub proof fn law_crash_dumps_need_no_symbols(
    state: Collected,
    line: Seq<char>,
    elfs: Seq<Seq<u8>>,
)
    ensures
        <EspIdf as Collector>::after(state, line, elfs) == state.next(line),
{
}

} // verus!
