//! What holds of the printed output as a whole.
use crate::line_endings::{ends_with_cr, normalized, CR, LF};
use crate::output::OutputText;
use crate::parser::{printed, printed_addresses, resolved_by_all};
use crate::patterns::addresses;
use crate::debug_info::dwarf_loads;
use crate::object_file::object_header;
use crate::resolving_printer::{dump_in, is_data, new_printer, plain_printer, PrinterState};
use crate::stack_dump::esp_backtrace::parsed;
use crate::stack_dump::{dump_backtrace, DumpData, LineKind};
use crate::text::{complete_lines, last_line, line_end, without_cr};
use crate::unwind_data::{unwind_data, UnwindTables};
use crate::utf8_merger::{
    begins_char, decoded, first_chunk, law_output_may_be_cut_anywhere,
    law_rest_is_incomplete_character, lemma_begins_char, lemma_chunk_extends,
    lemma_valid_first_scalar, pending, Chunk, REPLACEMENT,
};
use vstd::prelude::*;

verus! {

/// What the device sent, among the pieces.
pub open spec fn plain_text(pieces: Seq<OutputText>) -> Seq<char>
    decreases pieces.len(),
{
    if pieces.len() == 0 {
        seq![]
    } else {
        match pieces.last() {
            OutputText::Plain(text) => plain_text(pieces.drop_last()) + text,
            OutputText::Highlighted(_) => plain_text(pieces.drop_last()),
        }
    }
}

/// What the monitor added, among the pieces.
pub open spec fn highlights(pieces: Seq<OutputText>) -> Seq<Seq<char>>
    decreases pieces.len(),
{
    if pieces.len() == 0 {
        seq![]
    } else {
        match pieces.last() {
            OutputText::Plain(_) => highlights(pieces.drop_last()),
            OutputText::Highlighted(text) => highlights(pieces.drop_last()).push(text),
        }
    }
}

/// Pieces one after the other.
proof fn lemma_pieces(first: Seq<OutputText>, second: Seq<OutputText>)
    ensures
        plain_text(first + second) == plain_text(first) + plain_text(second),
        highlights(first + second) == highlights(first) + highlights(second),
    decreases second.len(),
{
    if second.len() == 0 {
        assert(first + second =~= first);
        assert(plain_text(first) + seq![] =~= plain_text(first));
        assert(highlights(first) + seq![] =~= highlights(first));
    } else {
        assert((first + second).drop_last() =~= first + second.drop_last());
        lemma_pieces(first, second.drop_last());
        assert(plain_text(first + second) =~= plain_text(first) + plain_text(second));
        assert(highlights(first + second) =~= highlights(first) + highlights(second));
    }
}

/// Whether all pieces were added by the monitor.
pub open spec fn all_highlighted(pieces: Seq<OutputText>) -> bool {
    forall|i: int| 0 <= i < pieces.len() ==> (#[trigger] pieces[i]) is Highlighted
}

/// What the monitor added is nothing that the device sent.
proof fn lemma_all_highlighted(pieces: Seq<OutputText>)
    requires
        all_highlighted(pieces),
    ensures
        plain_text(pieces) == Seq::<char>::empty(),
    decreases pieces.len(),
{
    if pieces.len() > 0 {
        assert(pieces[pieces.len() - 1] is Highlighted);
        lemma_all_highlighted(pieces.drop_last());
    }
}

/// Resolved addresses are added by the monitor.
proof fn lemma_addresses_highlighted(elf: Seq<u8>, line: Seq<char>, found: Seq<Seq<char>>)
    ensures
        all_highlighted(printed_addresses(elf, line, found).pieces),
    decreases found.len(),
{
    if found.len() > 0 {
        lemma_addresses_highlighted(elf, line, found.drop_last());
    }
}

/// Resolved addresses are added by the monitor.
proof fn lemma_files_highlighted(elfs: Seq<Seq<u8>>, line: Seq<char>, resolve_all: bool)
    ensures
        all_highlighted(resolved_by_all(elfs, line, resolve_all).pieces),
    decreases elfs.len(),
{
    if elfs.len() > 0 {
        lemma_files_highlighted(elfs.drop_last(), line, resolve_all);
        lemma_addresses_highlighted(elfs.last(), line, addresses(line, 0));
    }
}

/// A line as the device sent it.
pub open spec fn with_ending(line: Seq<char>) -> Seq<char> {
    line + seq!['\r', '\n']
}

/// Lines as the device sent them.
pub open spec fn lines_text(lines: Seq<Seq<char>>) -> Seq<char>
    decreases lines.len(),
{
    if lines.len() == 0 {
        seq![]
    } else {
        with_ending(lines[0]) + lines_text(lines.drop_first())
    }
}

/// What the device sent of a line is printed.
proof fn lemma_print_line(state: PrinterState, line: Seq<char>)
    requires
        state.print_line(line).error is None,
    ensures
        plain_text(state.print_line(line).pieces) == with_ending(line),
{
    reveal(PrinterState::print_line);
    reveal_strlit("\r\n");
    let kind = state.collect(line).1;
    let shown = state.resolve(line, kind);
    let plain = seq![OutputText::Plain(line), OutputText::Plain("\r\n"@)];
    lemma_files_highlighted(state.symbols, state.fragment + line, state.resolve_all);
    let first = state.backtrace(
        if is_data(kind) {
            None
        } else {
            dump_in(kind)
        },
    ).pieces;
    let last = state.backtrace(
        if is_data(kind) {
            dump_in(kind)
        } else {
            None
        },
    ).pieces;
    assert(first + plain + shown.pieces + last == state.print_line(line).pieces);
    lemma_pieces(first + plain + shown.pieces, last);
    lemma_pieces(first + plain, shown.pieces);
    lemma_pieces(first, plain);
    lemma_all_highlighted(first);
    lemma_all_highlighted(shown.pieces);
    lemma_all_highlighted(last);
    assert(plain.drop_last() =~= seq![OutputText::Plain(line)]);
    assert(plain.drop_last().drop_last() =~= seq![]);
    assert(plain_text(plain.drop_last().drop_last()) =~= seq![]);
    assert(plain_text(plain.drop_last()) =~= line);
    assert(plain_text(plain) =~= with_ending(line));
    assert(plain_text(state.print_line(line).pieces) =~= with_ending(line));
}

/// What the device sent of complete lines is printed.
proof fn lemma_print_lines(state: PrinterState, lines: Seq<Seq<char>>)
    requires
        state.print_lines(lines).1.error is None,
    ensures
        plain_text(state.print_lines(lines).1.pieces) == lines_text(lines),
    decreases lines.len(),
{
    if lines.len() > 0 {
        let next = state.after_line(lines[0]);
        lemma_print_line(state, lines[0]);
        lemma_print_lines(next, lines.drop_first());
        lemma_pieces(
            state.print_line(lines[0]).pieces,
            next.print_lines(lines.drop_first()).1.pieces,
        );
    }
}

/// Whether each line feed of the text follows a carriage return. `after_cr` tells
/// whether the text itself does.
pub open spec fn has_line_endings(text: Seq<char>, after_cr: bool) -> bool {
    forall|i: int|
        0 <= i < text.len() && (#[trigger] text[i]) == '\n' ==> if i == 0 {
            after_cr
        } else {
            text[i - 1] == '\r'
        }
}

/// A line feed is where no character before is one.
proof fn lemma_line_end(text: Seq<char>, i: int)
    requires
        0 <= i <= text.len(),
    ensures
        i <= line_end(text, i) <= text.len(),
        line_end(text, i) < text.len() ==> text[line_end(text, i)] == '\n',
        forall|j: int| i <= j < line_end(text, i) ==> (#[trigger] text[j]) != '\n',
    decreases text.len() - i,
{
    if i < text.len() && text[i] != '\n' {
        lemma_line_end(text, i + 1);
    }
}

/// The lines of a text, with their endings, are the text.
proof fn lemma_lines_text(text: Seq<char>, i: int)
    requires
        0 <= i <= text.len(),
        has_line_endings(text, false),
        i == 0 || text[i - 1] == '\n',
    ensures
        lines_text(complete_lines(text, i)) + last_line(text, i) == text.skip(i),
    decreases text.len() - i,
{
    let end = line_end(text, i);
    lemma_line_end(text, i);
    if end < text.len() {
        let line = text.subrange(i, end);
        let rest = complete_lines(text, end + 1);
        let lines = seq![without_cr(line)] + rest;
        lemma_lines_text(text, end + 1);
        assert(text[end] == '\n');
        assert(text[end - 1] == '\r');
        assert(lines.drop_first() =~= rest);
        assert(with_ending(without_cr(line)) =~= text.subrange(i, end + 1));
        assert(with_ending(without_cr(line)) + lines_text(rest) + last_line(text, end + 1)
            =~= text.subrange(i, end + 1) + text.skip(end + 1)) by {
            assert(lines_text(rest) + last_line(text, end + 1) == text.skip(end + 1));
            assert(with_ending(without_cr(line)) + lines_text(rest) + last_line(text, end + 1)
                =~= with_ending(without_cr(line)) + (lines_text(rest) + last_line(
                text,
                end + 1,
            )));
        }
        assert(text.subrange(i, end + 1) + text.skip(end + 1) =~= text.skip(i));
    } else {
        assert(complete_lines(text, i) =~= seq![]);
        assert(lines_text(seq![]) + text.skip(i) =~= text.skip(i));
    }
}

/// Whether each line feed of the bytes follows a carriage return. `after_cr` tells
/// whether the bytes themselves do.
pub open spec fn has_byte_endings(bytes: Seq<u8>, after_cr: bool) -> bool {
    forall|i: int|
        0 <= i < bytes.len() && (#[trigger] bytes[i]) == LF ==> if i == 0 {
            after_cr
        } else {
            bytes[i - 1] == CR
        }
}

/// Normalized output has a carriage return before each line feed.
proof fn lemma_normalized(bytes: Seq<u8>)
    ensures
        has_byte_endings(normalized(bytes), false),
        bytes.len() > 0 ==> normalized(bytes).len() > 0 && normalized(bytes).last()
            == bytes.last(),
        bytes.len() == 0 ==> normalized(bytes).len() == 0,
    decreases bytes.len(),
{
    if bytes.len() > 0 {
        let rest = bytes.drop_last();
        let out = normalized(bytes);
        lemma_normalized(rest);
        assert forall|i: int| 0 <= i < out.len() && (#[trigger] out[i]) == LF implies if i == 0 {
            false
        } else {
            out[i - 1] == CR
        } by {
            if i < normalized(rest).len() {
                assert(normalized(rest)[i] == out[i]);
            }
        }
    }
}

/// What is decoded from the beginning of some bytes: a carriage return only from
/// one, and a line feed only from one.
proof fn lemma_first_chunk_endings(bytes: Seq<u8>)
    requires
        bytes.len() > 0,
    ensures
        match first_chunk(bytes) {
            Chunk::Scalar(len, c) => {
                &&& 0 < len <= bytes.len()
                &&& bytes[len - 1] == CR ==> c == '\r'
                &&& c == '\n' ==> bytes[0] == LF
            },
            Chunk::Invalid(len) => 0 < len <= bytes.len() && bytes[len - 1] != CR,
            Chunk::Incomplete => true,
        },
{
    let a = bytes[0];
    lemma_valid_first_scalar(bytes);
    lemma_begins_char(bytes);
    assert(a <= 0x7f ==> a & 0x7f == a) by (bit_vector);
    if bytes.len() >= 2 {
        lemma_begins_char(bytes.take(2));
    }
    if bytes.len() >= 3 {
        lemma_begins_char(bytes.take(3));
    }
    if first_chunk(bytes) !is Incomplete {
        lemma_chunk_extends(bytes, seq![]);
    }
}

/// Bytes with a carriage return before each line feed are decoded to text with
/// one before each line feed.
proof fn lemma_decoded_endings(bytes: Seq<u8>, after_cr: bool)
    requires
        has_byte_endings(bytes, after_cr),
    ensures
        has_line_endings(decoded(bytes), after_cr),
    decreases bytes.len(),
{
    if bytes.len() > 0 && first_chunk(bytes) !is Incomplete {
        lemma_first_chunk_endings(bytes);
        let (len, c) = match first_chunk(bytes) {
            Chunk::Scalar(len, c) => (len, c),
            Chunk::Invalid(len) => (len, REPLACEMENT),
            Chunk::Incomplete => (0, REPLACEMENT),
        };
        let rest = bytes.skip(len as int);
        let cr = bytes[len - 1] == CR;
        assert(has_byte_endings(rest, cr)) by {
            assert forall|i: int| 0 <= i < rest.len() && (#[trigger] rest[i]) == LF implies if i
                == 0 {
                cr
            } else {
                rest[i - 1] == CR
            } by {
                assert(bytes[i + len] == rest[i]);
            }
        }
        lemma_decoded_endings(rest, cr);
        let text = decoded(bytes);
        assert forall|i: int| 0 <= i < text.len() && (#[trigger] text[i]) == '\n' implies if i
            == 0 {
            after_cr
        } else {
            text[i - 1] == '\r'
        } by {
            if i > 0 {
                assert(decoded(rest)[i - 1] == text[i]);
            } else {
                assert(bytes[0] == LF);
            }
        }
    }
}

/// The text of a piece of output has a carriage return before each line feed.
proof fn lemma_text_endings(before: Seq<u8>, buf: Seq<u8>)
    requires
        before.len() > 0 ==> begins_char(before),
    ensures
        has_line_endings(decoded(before + normalized(buf)), false),
{
    let bytes = before + normalized(buf);
    lemma_normalized(buf);
    if before.len() > 0 {
        lemma_begins_char(before);
    }
    assert forall|i: int| 0 <= i < bytes.len() && (#[trigger] bytes[i]) == LF implies if i == 0 {
        false
    } else {
        bytes[i - 1] == CR
    } by {
        if i >= before.len() {
            assert(normalized(buf)[i - before.len()] == bytes[i]);
        }
    }
    lemma_decoded_endings(bytes, false);
}

impl PrinterState {
    /// With more of a line that isn't complete yet.
    pub open spec fn with_fragment(self, fragment: Seq<char>) -> PrinterState {
        PrinterState { fragment: self.fragment + fragment, ..self }
    }

    /// With other bytes that wait for more.
    pub open spec fn with_pending(self, bytes: Seq<u8>) -> PrinterState {
        PrinterState { pending: bytes, ..self }
    }

    /// Whether the bytes that wait for more are the beginning of a character.
    pub open spec fn valid(self) -> bool {
        self.pending.len() > 0 ==> begins_char(self.pending)
    }
}

/// All that the device sent is printed, and nothing else but what the monitor
/// adds: the plain pieces, put together, are the decoded output.
pub proof fn law_output_is_printed(state: PrinterState, buf: Seq<u8>)
    requires
        state.valid(),
        state.print(buf).1.error is None,
    ensures
        plain_text(state.print(buf).1.pieces) == decoded(state.pending + normalized(buf)),
{
    let bytes = state.pending + normalized(buf);
    let text = decoded(bytes);
    let start = state.with_pending(pending(bytes));
    let (next, lines) = start.print_lines(complete_lines(text, 0));
    let (_, fragment) = next.print_fragment(last_line(text, 0));
    lemma_text_endings(state.pending, buf);
    lemma_print_lines(start, complete_lines(text, 0));
    lemma_pieces(lines.pieces, fragment.pieces);
    lemma_lines_text(text, 0);
    assert(text.skip(0) =~= text);
    let tail = last_line(text, 0);
    assert(plain_text(fragment.pieces) =~= tail) by {
        if tail.len() > 0 {
            assert(fragment.pieces.drop_last() =~= seq![]);
            assert(plain_text(fragment.pieces.drop_last()) =~= seq![]);
        }
    }
}

/// Printing lines changes neither what is disabled nor the files.
proof fn lemma_lines_keep_settings(state: PrinterState, lines: Seq<Seq<char>>)
    ensures
        ({
            let next = state.print_lines(lines).0;
            &&& next.symbols == state.symbols
            &&& next.elfs == state.elfs
            &&& next.pending == state.pending
            &&& next.disabled == state.disabled
            &&& next.resolve_all == state.resolve_all
            &&& next.tables == state.tables
        }),
    decreases lines.len(),
{
    reveal(PrinterState::after_line);
    if lines.len() > 0 {
        lemma_lines_keep_settings(state.after_line(lines[0]), lines.drop_first());
    }
}

/// Printing changes no settings, and what it leaves of the output is the
/// beginning of a character.
pub proof fn law_printing_keeps_settings(state: PrinterState, buf: Seq<u8>)
    ensures
        ({
            let next = state.print(buf).0;
            &&& next.valid()
            &&& next.pending == pending(state.pending + normalized(buf))
            &&& next.symbols == state.symbols
            &&& next.elfs == state.elfs
            &&& next.disabled == state.disabled
            &&& next.resolve_all == state.resolve_all
            &&& next.tables == state.tables
        }),
{
    let bytes = state.pending + normalized(buf);
    law_rest_is_incomplete_character(bytes);
    lemma_lines_keep_settings(
        state.with_pending(pending(bytes)),
        complete_lines(decoded(bytes), 0),
    );
}

/// A printer with address resolution disabled adds nothing to complete lines, and
/// has no errors.
proof fn lemma_disabled_lines(state: PrinterState, lines: Seq<Seq<char>>)
    requires
        state.disabled,
    ensures
        state.print_lines(lines).1.error is None,
        highlights(state.print_lines(lines).1.pieces) == Seq::<Seq<char>>::empty(),
    decreases lines.len(),
{
    if lines.len() > 0 {
        let line = lines[0];
        let next = state.after_line(line);
        let shown = state.print_line(line);
        assert(next.disabled) by {
            reveal(PrinterState::after_line);
        }
        assert(shown.error is None && highlights(shown.pieces) =~= seq![]) by {
            reveal(PrinterState::collect);
            reveal(PrinterState::print_line);
            let plain = seq![OutputText::Plain(line), OutputText::Plain("\r\n"@)];
            assert(shown.pieces =~= plain);
            assert(plain.drop_last().drop_last() =~= seq![]);
            assert(highlights(plain.drop_last().drop_last()) =~= seq![]);
            assert(highlights(plain.drop_last()) =~= seq![]);
        }
        lemma_disabled_lines(next, lines.drop_first());
        lemma_pieces(shown.pieces, next.print_lines(lines.drop_first()).1.pieces);
    }
}

/// A printer with address resolution disabled adds nothing to what the device
/// sent, and has no errors.
pub proof fn law_disabled_printer_adds_nothing(state: PrinterState, buf: Seq<u8>)
    requires
        state.disabled,
    ensures
        state.print(buf).1.error is None,
        highlights(state.print(buf).1.pieces) == Seq::<Seq<char>>::empty(),
{
    let bytes = state.pending + normalized(buf);
    let text = decoded(bytes);
    let start = state.with_pending(pending(bytes));
    let (next, lines) = start.print_lines(complete_lines(text, 0));
    let (_, fragment) = next.print_fragment(last_line(text, 0));
    lemma_disabled_lines(start, complete_lines(text, 0));
    lemma_pieces(lines.pieces, fragment.pieces);
    assert(highlights(fragment.pieces) =~= seq![]) by {
        if fragment.pieces.len() > 0 {
            assert(fragment.pieces.drop_last() =~= seq![]);
            assert(highlights(fragment.pieces.drop_last()) =~= seq![]);
        }
    }
}

/// A line feed is found in what is left of a text as in the text.
proof fn lemma_line_end_skip(text: Seq<char>, k: int, i: int)
    requires
        0 <= k <= text.len(),
        0 <= i <= text.len() - k,
    ensures
        line_end(text.skip(k), i) + k == line_end(text, k + i),
    decreases text.len() - k - i,
{
    if i < text.len() - k && text[k + i] != '\n' {
        lemma_line_end_skip(text, k, i + 1);
    }
}

/// The lines of what is left of a text are those of the text.
proof fn lemma_lines_skip(text: Seq<char>, k: int, i: int)
    requires
        0 <= k <= text.len(),
        0 <= i <= text.len() - k,
    ensures
        complete_lines(text.skip(k), i) == complete_lines(text, k + i),
        last_line(text.skip(k), i) == last_line(text, k + i),
    decreases text.len() - k - i,
{
    let rest = text.skip(k);
    let end = line_end(rest, i);
    lemma_line_end_skip(text, k, i);
    lemma_line_end(rest, i);
    if end < rest.len() {
        lemma_lines_skip(text, k, end + 1);
        assert(rest.subrange(i, end) =~= text.subrange(k + i, k + end));
    } else {
        assert(rest.skip(i) =~= text.skip(k + i));
    }
}

/// A line feed in the first of two texts is found in both of them together.
proof fn lemma_line_end_concat(first: Seq<char>, second: Seq<char>, i: int)
    requires
        0 <= i <= first.len(),
    ensures
        line_end(first, i) < first.len() ==> line_end(first + second, i) == line_end(first, i),
        line_end(first, i) >= first.len() ==> line_end(first + second, i) == first.len() + line_end(
            second,
            0,
        ),
    decreases first.len() - i,
{
    if i < first.len() {
        if first[i] != '\n' {
            lemma_line_end_concat(first, second, i + 1);
        }
    } else {
        lemma_line_end_skip(first + second, first.len() as int, 0);
        assert((first + second).skip(first.len() as int) =~= second);
    }
}

/// The lines of two texts together: those of the first one, and those of what is
/// left of it together with the second one.
proof fn lemma_lines_concat(first: Seq<char>, second: Seq<char>, i: int)
    requires
        0 <= i <= first.len(),
    ensures
        ({
            let tail = last_line(first, i);
            &&& complete_lines(first + second, i) == complete_lines(first, i) + complete_lines(
                tail + second,
                0,
            )
            &&& last_line(first + second, i) == last_line(tail + second, 0)
        }),
    decreases first.len() - i,
{
    let all = first + second;
    let end = line_end(first, i);
    lemma_line_end(first, i);
    lemma_line_end_concat(first, second, i);
    if end < first.len() {
        let tail = last_line(first, end + 1);
        lemma_lines_concat(first, second, end + 1);
        assert(all.subrange(i, end) =~= first.subrange(i, end));
        assert(complete_lines(all, i) =~= complete_lines(first, i) + complete_lines(
            tail + second,
            0,
        ));
    } else {
        lemma_lines_skip(all, i, 0);
        assert(all.skip(i) =~= first.skip(i) + second);
        assert(complete_lines(first, i) =~= seq![]);
        assert(seq![] + complete_lines(all, i) =~= complete_lines(all, i));
    }
}

/// Lines one after the other.
proof fn lemma_print_lines_concat(
    state: PrinterState,
    first: Seq<Seq<char>>,
    second: Seq<Seq<char>>,
)
    requires
        state.print_lines(first).1.error is None,
    ensures
        ({
            let (middle, shown) = state.print_lines(first);
            let (last, more) = middle.print_lines(second);
            state.print_lines(first + second) == (last, shown.followed_by(more))
        }),
    decreases first.len(),
{
    if first.len() == 0 {
        assert(first + second =~= second);
        let more = state.print_lines(second).1;
        assert(seq![] + more.pieces =~= more.pieces);
    } else {
        let next = state.after_line(first[0]);
        let shown = state.print_line(first[0]);
        let rest = first.drop_first();
        assert((first + second).drop_first() =~= rest + second);
        lemma_print_lines_concat(next, rest, second);
        let (middle, others) = next.print_lines(rest);
        let more = middle.print_lines(second).1;
        assert(shown.pieces + (others.pieces + more.pieces) =~= shown.pieces + others.pieces
            + more.pieces);
    }
}

/// The bytes that wait for more don't matter for lines.
proof fn lemma_pending_is_kept(state: PrinterState, bytes: Seq<u8>, lines: Seq<Seq<char>>)
    ensures
        ({
            let (next, shown) = state.print_lines(lines);
            state.with_pending(bytes).print_lines(lines) == (
                next.with_pending(bytes),
                shown,
            )
        }),
    decreases lines.len(),
{
    if lines.len() > 0 {
        let other = state.with_pending(bytes);
        let next = state.after_line(lines[0]);
        assert(other.print_line(lines[0]) == state.print_line(lines[0])) by {
            reveal(PrinterState::collect);
            reveal(PrinterState::print_line);
        }
        assert(other.after_line(lines[0]) == next.with_pending(bytes)) by {
            reveal(PrinterState::collect);
            reveal(PrinterState::after_line);
        }
        lemma_pending_is_kept(next, bytes, lines.drop_first());
    }
}

/// A line whose beginning was printed already is printed as the whole line is,
/// but for its beginning.
proof fn lemma_line_after_fragment(state: PrinterState, tail: Seq<char>, line: Seq<char>)
    ensures
        ({
            let other = state.with_fragment(tail);
            let whole = state.print_line(tail + line);
            let shown = other.print_line(line);
            &&& other.after_line(line) == state.after_line(tail + line)
            &&& shown.error == whole.error
            &&& highlights(shown.pieces) == highlights(whole.pieces)
        }),
{
    reveal(PrinterState::collect);
    reveal(PrinterState::print_line);
    reveal(PrinterState::after_line);
    let other = state.with_fragment(tail);
    assert(state.fragment + tail + line =~= state.fragment + (tail + line));
    let kind = state.collect(tail + line).1;
    assert(other.collect(line) == state.collect(tail + line));
    let first = state.backtrace(
        if is_data(kind) {
            None
        } else {
            dump_in(kind)
        },
    ).pieces;
    let last = state.backtrace(
        if is_data(kind) {
            dump_in(kind)
        } else {
            None
        },
    ).pieces;
    let shown = state.resolve(tail + line, kind).pieces;
    assert(other.resolve(line, kind) == state.resolve(tail + line, kind));
    lemma_line_highlights(first, line, shown, last);
    lemma_line_highlights(first, tail + line, shown, last);
}

/// What the monitor adds to a line doesn't depend on the line that is printed.
proof fn lemma_line_highlights(
    first: Seq<OutputText>,
    line: Seq<char>,
    shown: Seq<OutputText>,
    last: Seq<OutputText>,
)
    ensures
        ({
            let plain = seq![OutputText::Plain(line), OutputText::Plain("\r\n"@)];
            &&& highlights(first + plain + shown + last) == highlights(first) + highlights(shown)
                + highlights(last)
            &&& highlights(first + plain + shown) == highlights(first) + highlights(shown)
        }),
{
    let plain = seq![OutputText::Plain(line), OutputText::Plain("\r\n"@)];
    lemma_pieces(first + plain + shown, last);
    lemma_pieces(first + plain, shown);
    lemma_pieces(first, plain);
    assert(plain.drop_last().drop_last() =~= seq![]);
    assert(highlights(plain.drop_last().drop_last()) =~= seq![]);
    assert(highlights(plain.drop_last()) =~= seq![]);
    assert(highlights(first) + highlights(plain) =~= highlights(first));
}

/// A piece of plain text.
proof fn lemma_fragment(state: PrinterState, fragment: Seq<char>)
    ensures
        ({
            let (next, shown) = state.print_fragment(fragment);
            &&& next == state.with_fragment(fragment)
            &&& shown.error is None
            &&& plain_text(shown.pieces) == fragment
            &&& highlights(shown.pieces) == Seq::<Seq<char>>::empty()
        }),
{
    let (next, shown) = state.print_fragment(fragment);
    if fragment.len() == 0 {
        assert(state.fragment + fragment =~= state.fragment);
        assert(fragment =~= seq![]);
    } else {
        assert(shown.pieces.drop_last() =~= seq![]);
        assert(plain_text(shown.pieces.drop_last()) =~= seq![]);
        assert(highlights(shown.pieces.drop_last()) =~= seq![]);
        assert(plain_text(shown.pieces) =~= fragment);
    }
}

/// What is added to text, and the state after it, when the text comes after a
/// fragment.
#[verifier::rlimit(40)]
proof fn lemma_text_after_fragment(state: PrinterState, tail: Seq<char>, text: Seq<char>)
    requires
        line_end(tail, 0) >= tail.len(),
        has_line_endings(text, false),
        state.with_fragment(tail).print_text(text).1.error is None,
    ensures
        ({
            let other = state.with_fragment(tail);
            let whole = state.print_text(tail + text);
            let shown = other.print_text(text);
            &&& whole.0 == shown.0
            &&& whole.1.error is None
            &&& highlights(whole.1.pieces) == highlights(shown.1.pieces)
        }),
{
    let other = state.with_fragment(tail);
    let all = tail + text;
    let end = line_end(text, 0);
    lemma_line_end(text, 0);
    lemma_line_end(tail, 0);
    lemma_line_end_concat(tail, text, 0);
    if end >= text.len() {
        assert(complete_lines(all, 0) =~= seq![]);
        assert(complete_lines(text, 0) =~= seq![]);
        assert(all.skip(0) =~= all);
        assert(text.skip(0) =~= text);
        lemma_fragment(state, all);
        lemma_fragment(other, text);
        assert(state.fragment + tail + text =~= state.fragment + all);
        let whole = state.print_text(all);
        let shown = other.print_text(text);
        assert(seq![] + state.print_fragment(all).1.pieces =~= state.print_fragment(
            all,
        ).1.pieces);
        assert(seq![] + other.print_fragment(text).1.pieces =~= other.print_fragment(
            text,
        ).1.pieces);
    } else {
        let line = without_cr(text.subrange(0, end));
        let rest = complete_lines(text, end + 1);
        let last = last_line(text, end + 1);
        assert(text[end - 1] == '\r');
        assert(all.subrange(0, tail.len() + end) =~= tail + text.subrange(0, end));
        assert(without_cr(tail + text.subrange(0, end)) =~= tail + line);
        lemma_lines_skip(all, tail.len() as int, end + 1);
        assert(all.skip(tail.len() as int) =~= text);
        assert(complete_lines(all, 0) == seq![tail + line] + rest);
        assert(complete_lines(text, 0) == seq![line] + rest);
        assert((seq![tail + line] + rest).drop_first() =~= rest);
        assert((seq![line] + rest).drop_first() =~= rest);
        lemma_line_after_fragment(state, tail, line);
        let next = other.after_line(line);
        let (after, more) = next.print_lines(rest);
        let (_, fragment) = after.print_fragment(last);
        lemma_fragment(after, last);
        lemma_pieces(state.print_line(tail + line).pieces, more.pieces);
        lemma_pieces(other.print_line(line).pieces, more.pieces);
        lemma_pieces(state.print_line(tail + line).pieces + more.pieces, fragment.pieces);
        lemma_pieces(other.print_line(line).pieces + more.pieces, fragment.pieces);
    }
}

/// No line feed follows the last one.
proof fn lemma_last_line(text: Seq<char>, i: int)
    requires
        0 <= i <= text.len(),
    ensures
        line_end(last_line(text, i), 0) >= last_line(text, i).len(),
    decreases text.len() - i,
{
    let end = line_end(text, i);
    lemma_line_end(text, i);
    if end < text.len() {
        lemma_last_line(text, end + 1);
    } else {
        lemma_line_end_skip(text, i, 0);
    }
}

/// Printing text in two pieces adds the same and leaves the same state as printing
/// it at once.
#[verifier::rlimit(40)]
proof fn lemma_text_in_pieces(state: PrinterState, first: Seq<char>, second: Seq<char>)
    requires
        has_line_endings(second, false),
        state.print_text(first).1.error is None,
        state.print_text(first).0.print_text(second).1.error is None,
    ensures
        ({
            let (middle, shown) = state.print_text(first);
            let (last, more) = middle.print_text(second);
            let (whole, all) = state.print_text(first + second);
            &&& whole == last
            &&& all.error is None
            &&& highlights(all.pieces) == highlights(shown.pieces) + highlights(more.pieces)
        }),
{
    let tail = last_line(first, 0);
    let lines = complete_lines(first, 0);
    let (after, oa) = state.print_lines(lines);
    let middle = state.print_text(first).0;
    lemma_last_line(first, 0);
    lemma_fragment(after, tail);
    lemma_text_after_fragment(after, tail, second);
    lemma_lines_concat(first, second, 0);
    let u = tail + second;
    lemma_print_lines_concat(state, lines, complete_lines(u, 0));
    let (end, ou) = after.print_lines(complete_lines(u, 0));
    let fragment = end.print_fragment(last_line(u, 0)).1;
    lemma_fragment(end, last_line(u, 0));
    lemma_pieces(oa.pieces, after.print_fragment(tail).1.pieces);
    lemma_pieces(oa.pieces, ou.pieces);
    lemma_pieces(ou.pieces, fragment.pieces);
    lemma_pieces(oa.pieces + ou.pieces, fragment.pieces);
    assert(highlights(oa.pieces) + (highlights(ou.pieces) + highlights(fragment.pieces))
        =~= highlights(oa.pieces) + highlights(ou.pieces) + highlights(fragment.pieces));
    assert(highlights(oa.pieces) + seq![] =~= highlights(oa.pieces));
}

/// How the output is cut into pieces doesn't matter, as long as no carriage return
/// and its line feed end up in different pieces: what the device sent and what the
/// monitor adds to it are the same, and so is the state of the printer.
#[verifier::rlimit(40)]
pub proof fn law_output_may_be_printed_in_pieces(
    state: PrinterState,
    first: Seq<u8>,
    second: Seq<u8>,
)
    requires
        state.valid(),
        !(ends_with_cr(first) && second.len() > 0 && second[0] == LF),
        state.print(first).1.error is None,
        state.print(first).0.print(second).1.error is None,
    ensures
        ({
            let (middle, shown) = state.print(first);
            let (last, more) = middle.print(second);
            let (whole, all) = state.print(first + second);
            &&& whole == last
            &&& all.error is None
            &&& plain_text(all.pieces) == plain_text(shown.pieces) + plain_text(more.pieces)
            &&& highlights(all.pieces) == highlights(shown.pieces) + highlights(more.pieces)
        }),
{
    let middle = state.print(first).0;
    let bytes = state.pending + normalized(first);
    let left = pending(bytes);
    let more_bytes = left + normalized(second);
    let rest = pending(more_bytes);
    let text = decoded(bytes);
    let more_text = decoded(more_bytes);
    law_printing_keeps_settings(state, first);
    law_output_may_be_cut_anywhere(state.pending, first, second);
    lemma_text_endings(left, second);
    let start = state.with_pending(rest);
    let start_middle = start.print_text(text).0;
    // Printing doesn't look at the bytes that wait for more.
    lemma_text_keeps_pending(state.with_pending(left), rest, text);
    assert(state.with_pending(left).with_pending(rest) == start);
    assert(middle.with_pending(rest) == start_middle);
    lemma_text_in_pieces(start, text, more_text);
    law_output_is_printed(state, first);
    law_output_is_printed(middle, second);
    law_output_is_printed(state, first + second);
}

/// The bytes that wait for more don't matter for text.
proof fn lemma_text_keeps_pending(state: PrinterState, bytes: Seq<u8>, text: Seq<char>)
    ensures
        state.with_pending(bytes).print_text(text) == (
            state.print_text(text).0.with_pending(bytes),
            state.print_text(text).1,
        ),
{
    lemma_pending_is_kept(state, bytes, complete_lines(text, 0));
}

/// The contents of a stack dump are data rather than code addresses: nothing is
/// added to them, unless all addresses are to be resolved.
pub proof fn law_stack_contents_are_not_resolved(state: PrinterState, line: Seq<char>)
    requires
        !state.resolve_all,
        state.collect(line).1 is Data,
    ensures
        state.print_line(line) == printed(
            seq![OutputText::Plain(line), OutputText::Plain("\r\n"@)],
        ),
{
    reveal(PrinterState::print_line);
    assert(state.print_line(line).pieces =~= seq![
        OutputText::Plain(line),
        OutputText::Plain("\r\n"@),
    ]);
}

/// The backtrace of a dump directly follows it: it comes before the first line
/// after the dump, or after the line that the dump is in.
pub proof fn law_backtrace_follows_dump(
    state: PrinterState,
    line: Seq<char>,
    dump: DumpData,
    includes_line: bool,
)
    requires
        (state.collect(line).1 == LineKind::Complete { dump, includes_line }),
        state.print_line(line).error is None,
    ensures
        ({
            let pieces = state.print_line(line).pieces;
            let backtrace = OutputText::Highlighted(
                dump_backtrace(dump, unwind_data(state.elfs, state.tables), state.symbols),
            );
            let plain = seq![OutputText::Plain(line), OutputText::Plain("\r\n"@)];
            &&& !includes_line ==> pieces.take(3) == seq![backtrace] + plain
            &&& includes_line ==> pieces.take(2) == plain && pieces.last() == backtrace
        }),
{
    reveal(PrinterState::print_line);
    let pieces = state.print_line(line).pieces;
    let backtrace = OutputText::Highlighted(
        dump_backtrace(dump, unwind_data(state.elfs, state.tables), state.symbols),
    );
    let plain = seq![OutputText::Plain(line), OutputText::Plain("\r\n"@)];
    if includes_line {
        assert(pieces.take(2) =~= plain);
    } else {
        assert(pieces.take(3) =~= seq![backtrace] + plain);
    }
}

/// A line that completes a fragment is collected as a whole: what it is, and what is
/// collected after it, depends on all of it. A printer with address resolution disabled
/// collects nothing.
pub proof fn law_full_line_is_collected(state: PrinterState, line: Seq<char>)
    ensures
        state.disabled ==> state.collect(line) == (state.collected, LineKind::Other),
        !state.disabled ==> {
            let full = state.fragment + line;
            let (next, kind) = state.collect(line);
            &&& next == state.collected.next(full).0
            &&& match parsed(full, state.symbols) {
                Some(dump) => kind == LineKind::Complete { dump, includes_line: true },
                None => kind == state.collected.next(full).1,
            }
        },
        state.after_line(line).fragment.len() == 0,
        state.after_line(line).collected == state.collect(line).0,
        state.after_line(line).pending == state.pending,
{
    reveal(PrinterState::collect);
    reveal(PrinterState::after_line);
}

/// What is printed for a complete line is the line itself and a line ending, followed by the
/// names of the addresses in the full line, unless that is part of a stack dump and not all
/// addresses are to be resolved. The backtrace of a dump that ended before the line comes
/// before all of that, and that of a dump the line is part of comes after it.
pub proof fn law_line_is_printed_in_order(state: PrinterState, line: Seq<char>)
    requires
        !state.disabled,
    ensures
        ({
            let kind = state.collect(line).1;
            let full = state.fragment + line;
            let in_dump = kind is Data || (kind matches LineKind::Complete { includes_line, .. }
                && includes_line);
            let names = if in_dump && !state.resolve_all {
                printed(seq![])
            } else {
                resolved_by_all(state.symbols, full, state.resolve_all)
            };
            let plain = seq![OutputText::Plain(line), OutputText::Plain("\r\n"@)];
            let shown = state.print_line(line);
            &&& shown.error == names.error
            &&& kind !is Complete ==> shown.pieces == plain + names.pieces
            &&& kind matches LineKind::Complete { dump, includes_line } ==> {
                let backtrace = seq![
                    OutputText::Highlighted(
                        dump_backtrace(dump, unwind_data(state.elfs, state.tables), state.symbols),
                    ),
                ];
                &&& !includes_line ==> shown.pieces == backtrace + plain + names.pieces
                &&& includes_line && names.error is None ==> shown.pieces == plain + names.pieces
                    + backtrace
                &&& includes_line && names.error is Some ==> shown.pieces == plain + names.pieces
            }
        }),
{
    reveal(PrinterState::print_line);
    let kind = state.collect(line).1;
    let full = state.fragment + line;
    let names = state.resolve_full(full, is_data(kind));
    let plain = seq![OutputText::Plain(line), OutputText::Plain("\r\n"@)];
    let shown = state.print_line(line);
    assert(seq![] + plain =~= plain);
    assert(plain + names.pieces + seq![] =~= plain + names.pieces);
    if let LineKind::Complete { dump, includes_line } = kind {
        let backtrace = state.backtrace(Some(dump)).pieces;
        assert(backtrace + plain + names.pieces + seq![] =~= backtrace + plain + names.pieces);
    }
}

/// Lines are printed one after the other, each with what was collected before it, up to the
/// first that can't be printed in full.
pub proof fn law_lines_are_printed_in_order(
    state: PrinterState,
    line: Seq<char>,
    lines: Seq<Seq<char>>,
)
    ensures
        ({
            let (last, shown) = state.print_lines(seq![line] + lines);
            let first = state.print_line(line);
            let (rest_last, rest) = state.after_line(line).print_lines(lines);
            &&& first.error is Some ==> shown == first && last == state.after_line(line)
            &&& first.error is None ==> shown.pieces == first.pieces + rest.pieces && shown.error
                == rest.error && last == rest_last
        }),
        state.print_lines(Seq::<Seq<char>>::empty()).1.pieces.len() == 0,
        state.print_lines(Seq::<Seq<char>>::empty()).0 == state,
{
    assert((seq![line] + lines).drop_first() =~= lines);
}

/// Output is decoded together with the bytes of an incomplete character before it, and its
/// complete lines are printed as such. What follows them is printed as it is, and is the
/// beginning of the next line.
pub proof fn law_incomplete_line_is_printed_at_once(state: PrinterState, buf: Seq<u8>)
    requires
        state.print(buf).1.error is None,
    ensures
        ({
            let bytes = state.pending + normalized(buf);
            let text = decoded(bytes);
            let rest = last_line(text, 0);
            let (lines_state, lines) = state.with_pending(pending(bytes)).print_lines(
                complete_lines(text, 0),
            );
            let (next, shown) = state.print(buf);
            &&& lines.error is None
            &&& rest.len() == 0 ==> shown.pieces == lines.pieces && next == lines_state
            &&& rest.len() > 0 ==> shown.pieces == lines.pieces.push(OutputText::Plain(rest))
                && next.fragment == lines_state.fragment + rest && next.collected
                == lines_state.collected
        }),
{
    let bytes = state.pending + normalized(buf);
    let text = decoded(bytes);
    let rest = last_line(text, 0);
    let (lines_state, lines) = state.with_pending(pending(bytes)).print_lines(
        complete_lines(text, 0),
    );
    assert(lines.pieces + seq![] =~= lines.pieces);
    assert(lines.pieces + seq![OutputText::Plain(rest)] =~= lines.pieces.push(
        OutputText::Plain(rest),
    ));
}

/// A new printer has the symbols of the ELF files that can be read, in their order, unwinds
/// with all of them, and has collected nothing.
pub proof fn law_new_printer_has_readable_symbols(
    elfs: Seq<Seq<u8>>,
    elf: Seq<u8>,
    resolve_all: bool,
    tables: UnwindTables,
)
    ensures
        new_printer(Seq::<Seq<u8>>::empty(), resolve_all, tables).symbols.len() == 0,
        new_printer(elfs.push(elf), resolve_all, tables).symbols == (if object_header(elf) is Some
            && dwarf_loads(elf) {
            new_printer(elfs, resolve_all, tables).symbols.push(elf)
        } else {
            new_printer(elfs, resolve_all, tables).symbols
        }),
        ({
            let state = new_printer(elfs, resolve_all, tables);
            &&& state.elfs == elfs
            &&& state.resolve_all == resolve_all
            &&& state.tables == tables
            &&& !state.disabled
            &&& state.pending.len() == 0
            &&& state.fragment.len() == 0
            &&& state.collected.state is Idle
            &&& state.collected.registers is None
            &&& state.collected.stack.len() == 0
        }),
        plain_printer().disabled,
        plain_printer().pending.len() == 0,
        plain_printer().fragment.len() == 0,
{
    assert(elfs.push(elf).drop_last() =~= elfs);
}

} // verus!
