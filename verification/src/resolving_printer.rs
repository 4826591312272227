//! The printer of the serial output.
use crate::output::{output_texts, push_output, Output, OutputText};
use crate::parser::{printed, resolve_by_all, resolved_by_all, Printed};
use crate::cfi_table::Table;
use crate::line_endings::normalized;
use crate::stack_dump::esp_backtrace::EspBacktrace;
use crate::stack_dump::esp_idf::{nothing, Collected, EspIdf};
use crate::stack_dump::{
    default_collector, dump_backtrace, print_backtrace, Collector, Dump, DumpData, Line, LineKind,
};
use crate::symbols::{has_symbols, symbol_files, LookupError, Symbols};
use crate::text::{
    chars_of, complete_lines, find_line_end, last_line, line_end, string_of, without_cr,
};
use crate::unwind_data::{elf_contents, unwind_data, UnwindTables, Unwinder};
use crate::utf8_merger::{decoded, pending, Utf8Merger};
use vstd::prelude::*;
use vstd::slice::slice_subrange;
use vstd::string::*;

verus! {

/// What a [`ResolvingPrinter`] holds.
#[verifier::ext_equal]
pub struct PrinterState {
    /// The ELF files that symbols were read from.
    pub symbols: Seq<Seq<u8>>,
    /// The ELF files that stacks are unwound with.
    pub elfs: Seq<Seq<u8>>,
    /// The bytes of a character that isn't complete yet.
    pub pending: Seq<u8>,
    /// The beginning of a line that isn't complete yet.
    pub fragment: Seq<char>,
    /// Whether addresses aren't resolved.
    pub disabled: bool,
    /// Whether all addresses are resolved, even well known misleading ones.
    pub resolve_all: bool,
    /// What was collected of a stack dump.
    pub collected: Collected,
    /// The unwind tables to decode stack dumps with.
    pub tables: UnwindTables,
}

/// The ELF files that symbols can be read from.
pub open spec fn readable(elfs: Seq<Seq<u8>>) -> Seq<Seq<u8>>
    decreases elfs.len(),
{
    if elfs.len() == 0 {
        seq![]
    } else if has_symbols(elfs.last()) {
        readable(elfs.drop_last()).push(elfs.last())
    } else {
        readable(elfs.drop_last())
    }
}

/// A printer that has printed nothing yet.
pub open spec fn new_printer(
    elfs: Seq<Seq<u8>>,
    resolve_all: bool,
    tables: UnwindTables,
) -> PrinterState {
    PrinterState {
        symbols: readable(elfs),
        elfs,
        pending: seq![],
        fragment: seq![],
        disabled: false,
        resolve_all,
        collected: nothing(),
        tables,
    }
}

/// A printer that has printed nothing yet and resolves no addresses.
pub open spec fn plain_printer() -> PrinterState {
    PrinterState {
        disabled: true,
        ..new_printer(seq![], false, UnwindTables::Auto)
    }
}

/// The dump that a line completed, if any.
pub open spec fn dump_in(kind: LineKind) -> Option<DumpData> {
    match kind {
        LineKind::Complete { dump, .. } => Some(dump),
        _ => None,
    }
}

/// Whether the line is part of a stack dump.
pub open spec fn is_data(kind: LineKind) -> bool {
    match kind {
        LineKind::Other => false,
        LineKind::Data => true,
        LineKind::Complete { includes_line, .. } => includes_line,
    }
}

impl PrinterState {
    /// What a line, together with the fragment before it, is, and what is
    /// collected after it.
    #[verifier::opaque]
    pub open spec fn collect(self, line: Seq<char>) -> (Collected, LineKind) {
        if self.disabled {
            (self.collected, LineKind::Other)
        } else {
            let (state, kind) = <(EspBacktrace, EspIdf) as Collector>::after(
                ((), self.collected),
                self.fragment + line,
                self.symbols,
            );
            (state.1, kind)
        }
    }

    /// The backtrace of a dump, if there is one.
    pub open spec fn backtrace(self, dump: Option<DumpData>) -> Printed {
        match dump {
            Some(dump) => printed(
                seq![
                    OutputText::Highlighted(
                        dump_backtrace(dump, unwind_data(self.elfs, self.tables), self.symbols),
                    ),
                ],
            ),
            None => printed(seq![]),
        }
    }

    /// The addresses in a line, which aren't resolved in the contents of a stack
    /// dump: those are data rather than code addresses, so resolving them only
    /// produces noise.
    pub open spec fn resolve(self, line: Seq<char>, kind: LineKind) -> Printed {
        self.resolve_full(self.fragment + line, is_data(kind))
    }

    /// The addresses in a full line.
    pub open spec fn resolve_full(self, line: Seq<char>, line_is_data: bool) -> Printed {
        if !self.disabled && (!line_is_data || self.resolve_all) {
            resolved_by_all(self.symbols, line, self.resolve_all)
        } else {
            printed(seq![])
        }
    }

    /// What is printed for a complete line: the backtrace of a dump which ended
    /// before it, the line itself, the names of the addresses in it, and the
    /// backtrace of a dump it contains.
    #[verifier::opaque]
    pub open spec fn print_line(self, line: Seq<char>) -> Printed {
        let kind = self.collect(line).1;
        let dump = dump_in(kind);
        let before = if is_data(kind) {
            None
        } else {
            dump
        };
        let after = if is_data(kind) {
            dump
        } else {
            None
        };
        self.backtrace(before).followed_by(
            printed(seq![OutputText::Plain(line), OutputText::Plain("\r\n"@)]),
        ).followed_by(self.resolve(line, kind)).followed_by(self.backtrace(after))
    }

    /// After a complete line.
    #[verifier::opaque]
    pub open spec fn after_line(self, line: Seq<char>) -> PrinterState {
        PrinterState { fragment: seq![], collected: self.collect(line).0, ..self }
    }

    /// What is printed for complete lines, and the state after them. A line that
    /// can't be printed in full is the last one.
    pub open spec fn print_lines(self, lines: Seq<Seq<char>>) -> (PrinterState, Printed)
        decreases lines.len(),
    {
        if lines.len() == 0 {
            (self, printed(seq![]))
        } else {
            let first = self.print_line(lines[0]);
            let next = self.after_line(lines[0]);
            if first.error is Some {
                (next, first)
            } else {
                let (last, rest) = next.print_lines(lines.drop_first());
                (last, first.followed_by(rest))
            }
        }
    }

    /// What is printed for a line that isn't complete yet.
    pub open spec fn print_fragment(self, fragment: Seq<char>) -> (PrinterState, Printed) {
        if fragment.len() == 0 {
            (self, printed(seq![]))
        } else {
            (
                PrinterState { fragment: self.fragment + fragment, ..self },
                printed(seq![OutputText::Plain(fragment)]),
            )
        }
    }

    /// What is printed for text, and the state after it.
    pub open spec fn print_text(self, text: Seq<char>) -> (PrinterState, Printed) {
        let (state, lines) = self.print_lines(complete_lines(text, 0));
        if lines.error is Some {
            (state, lines)
        } else {
            let (last, fragment) = state.print_fragment(last_line(text, 0));
            (last, lines.followed_by(fragment))
        }
    }

    /// What is printed for output of the device, and the state after it.
    pub open spec fn print(self, buf: Seq<u8>) -> (PrinterState, Printed) {
        let bytes = self.pending + normalized(buf);
        PrinterState { pending: pending(bytes), ..self }.print_text(decoded(bytes))
    }
}

/// What is printed for a complete line: the backtrace before it, the line, the
/// names of the addresses in it, and the backtrace after it.
spec fn line_parts(state: PrinterState, line: Seq<char>) -> (
    Seq<OutputText>,
    Seq<OutputText>,
    Printed,
    Seq<OutputText>,
) {
    let kind = state.collect(line).1;
    let before = if is_data(kind) {
        None
    } else {
        dump_in(kind)
    };
    let after = if is_data(kind) {
        dump_in(kind)
    } else {
        None
    };
    (
        state.backtrace(before).pieces,
        seq![OutputText::Plain(line), OutputText::Plain("\r\n"@)],
        state.resolve(line, kind),
        state.backtrace(after).pieces,
    )
}

/// The parts of what is printed for a complete line.
proof fn lemma_print_line_parts(state: PrinterState, line: Seq<char>)
    ensures
        ({
            let (before, plain, shown, after) = line_parts(state, line);
            state.print_line(line) == if shown.error is Some {
                Printed { pieces: before + plain + shown.pieces, error: shown.error }
            } else {
                printed(before + plain + shown.pieces + after)
            }
        }),
{
    reveal(PrinterState::print_line);
}

/// A complete line changes neither the settings nor the files.
proof fn lemma_after_line(state: PrinterState, line: Seq<char>)
    ensures
        ({
            let next = state.after_line(line);
            &&& next.symbols == state.symbols
            &&& next.elfs == state.elfs
            &&& next.tables == state.tables
            &&& next.disabled == state.disabled
            &&& next.resolve_all == state.resolve_all
        }),
{
    reveal(PrinterState::after_line);
}

/// The unwinder of some ELF files, which is built the first time a stack has to be
/// unwound.
pub struct LazyUnwinder<'ctx> {
    elfs: Vec<&'ctx [u8]>,
    tables: UnwindTables,
    unwinder: Option<Unwinder<'ctx, Table<'ctx>>>,
}

impl<'ctx> View for LazyUnwinder<'ctx> {
    type V = (Seq<Seq<u8>>, UnwindTables);

    closed spec fn view(&self) -> (Seq<Seq<u8>>, UnwindTables) {
        (elf_contents(self.elfs@), self.tables)
    }
}

impl<'ctx> LazyUnwinder<'ctx> {
    #[verifier::type_invariant]
    spec fn built_from_elfs(self) -> bool {
        self.unwinder matches Some(unwinder) ==> unwinder@ == unwind_data(
            elf_contents(self.elfs@),
            self.tables,
        )
    }

    /// Takes the ELF files, and the unwind tables of them to use.
    fn new(elfs: Vec<&'ctx [u8]>, tables: UnwindTables) -> (lazy: Self)
        ensures
            lazy@ == (elf_contents(elfs@), tables),
    {
        LazyUnwinder { elfs, tables, unwinder: None }
    }

    /// Unwinds a stack dump and prints the resulting backtrace.
    fn print_backtrace(&mut self, dump: &Dump, symbols: &[Symbols<'_>], out: &mut Vec<Output>)
        ensures
            final(self)@ == old(self)@,
            output_texts(final(out)@) == output_texts(old(out)@).push(
                OutputText::Highlighted(
                    dump_backtrace(
                        dump@,
                        unwind_data(old(self)@.0, old(self)@.1),
                        symbol_files(symbols@),
                    ),
                ),
            ),
    {
        proof {
            use_type_invariant(&*self);
        }
        if self.unwinder.is_none() {
            self.unwinder = Some(Unwinder::new(&self.elfs, self.tables));
        }
        if let Some(unwinder) = &self.unwinder {
            print_backtrace(dump, unwinder, symbols, out);
        }
    }
}

/// A printer that resolves symbol names and formats output.
pub struct ResolvingPrinter<'ctx> {
    /// The symbols of the ELF files.
    symbols: Vec<Symbols<'ctx>>,
    /// Decodes the output.
    merger: Utf8Merger,
    /// The beginning of a line that isn't complete yet.
    line_fragment: String,
    /// Whether addresses aren't resolved.
    disable_address_resolution: bool,
    /// Whether all addresses are resolved, even well known misleading ones.
    try_resolve_all_addresses: bool,
    /// Recognizes the stack dumps in the output.
    collector: (EspBacktrace, EspIdf),
    /// Unwinds the stack dumps.
    unwinder: LazyUnwinder<'ctx>,
}

impl<'ctx> View for ResolvingPrinter<'ctx> {
    type V = PrinterState;

    closed spec fn view(&self) -> PrinterState {
        PrinterState {
            symbols: symbol_files(self.symbols@),
            elfs: self.unwinder@.0,
            pending: self.merger@,
            fragment: self.line_fragment@,
            disabled: self.disable_address_resolution,
            resolve_all: self.try_resolve_all_addresses,
            collected: self.collector.1@,
            tables: self.unwinder@.1,
        }
    }
}

/// Reads the symbols of the ELF files that have any.
fn read_symbols<'ctx>(elfs: &Vec<&'ctx [u8]>) -> (symbols: Vec<Symbols<'ctx>>)
    ensures
        symbol_files(symbols@) == readable(elf_contents(elfs@)),
{
    let ghost contents = elf_contents(elfs@);
    let mut symbols: Vec<Symbols<'ctx>> = Vec::new();
    let mut i: usize = 0;
    assert(contents.take(0) =~= seq![]);
    assert(symbol_files(symbols@) =~= seq![]);
    while i < elfs.len()
        invariant
            0 <= i <= elfs@.len(),
            contents == elf_contents(elfs@),
            symbol_files(symbols@) == readable(contents.take(i as int)),
        decreases elfs@.len() - i,
    {
        assert(contents.take(i + 1).drop_last() =~= contents.take(i as int));
        assert(contents.take(i + 1).last() == elfs@[i as int]@);
        if let Ok(read) = Symbols::try_from(elfs[i]) {
            assert(symbol_files(symbols@.push(read)) =~= symbol_files(symbols@).push(read@));
            symbols.push(read);
        }
        i += 1;
    }
    assert(contents.take(contents.len() as int) =~= contents);
    symbols
}

impl<'ctx> ResolvingPrinter<'ctx> {
    /// Creates a new `ResolvingPrinter` with the given ELF files.
    pub fn new(
        elf: Vec<&'ctx [u8]>,
        try_resolve_all_addresses: bool,
        unwind_tables: UnwindTables,
    ) -> (printer: Self)
        ensures
            printer@ == new_printer(
                elf_contents(elf@),
                try_resolve_all_addresses,
                unwind_tables,
            ),
    {
        let printer = ResolvingPrinter {
            symbols: read_symbols(&elf),
            merger: Utf8Merger::new(),
            line_fragment: String::new(),
            disable_address_resolution: false,
            try_resolve_all_addresses,
            collector: default_collector(),
            unwinder: LazyUnwinder::new(elf, unwind_tables),
        };
        assert(printer@ =~= new_printer(
            elf_contents(elf@),
            try_resolve_all_addresses,
            unwind_tables,
        ));
        printer
    }

    /// Creates a new `ResolvingPrinter` with address resolution disabled.
    pub fn new_no_addresses(_elf: Option<&'ctx [u8]>) -> (printer: Self)
        ensures
            printer@ == plain_printer(),
    {
        let printer = ResolvingPrinter {
            // Don't load symbols when address resolution is disabled
            symbols: Vec::new(),
            merger: Utf8Merger::new(),
            line_fragment: String::new(),
            disable_address_resolution: true,
            try_resolve_all_addresses: false,
            collector: default_collector(),
            unwinder: LazyUnwinder::new(Vec::new(), UnwindTables::default()),
        };
        assert(printer@ =~= plain_printer());
        printer
    }

    /// Unwinds a stack dump and prints the resulting backtrace.
    fn print_backtrace(&mut self, dump: &Dump, out: &mut Vec<Output>)
        ensures
            final(self)@ == old(self)@,
            output_texts(final(out)@) == output_texts(old(out)@) + old(self)@.backtrace(
                Some(dump@),
            ).pieces,
    {
        self.unwinder.print_backtrace(dump, &self.symbols, out);
        assert(output_texts(out@) =~= output_texts(old(out)@) + old(self)@.backtrace(
            Some(dump@),
        ).pieces);
    }

    /// Completes the line fragment with a line, and tells what the full line is.
    fn complete(&mut self, line: &str) -> (full: (String, Line))
        ensures
            final(self)@ == old(self)@.after_line(line@),
            full.0@ == old(self)@.fragment + line@,
            full.1@ == old(self)@.collect(line@).1,
    {
        proof {
            reveal(PrinterState::collect);
            reveal(PrinterState::after_line);
        }
        let ghost state = self@;
        // If there is a previous line fragment, that means that the current
        // line must be appended to it in order to form the complete line.
        // Since we want to look for function addresses in the *entire* line we
        // combine these prior to performing the symbol lookup(s).
        let mut full_line = String::new();
        core::mem::swap(&mut full_line, &mut self.line_fragment);
        full_line.append(line);
        // Keep track of the stack dumps in the output.
        let kind = if self.disable_address_resolution {
            Line::Other
        } else {
            self.collector.feed(full_line.as_str(), &self.symbols)
        };
        assert(self@ =~= state.after_line(line@));
        (full_line, kind)
    }

    /// Prints the backtrace of a dump, if there is one.
    fn print_dump(&mut self, dump: Option<&Dump>, out: &mut Vec<Output>)
        ensures
            final(self)@ == old(self)@,
            output_texts(final(out)@) == output_texts(old(out)@) + old(self)@.backtrace(
                match dump {
                    Some(dump) => Some(dump@),
                    None => None,
                },
            ).pieces,
    {
        match dump {
            Some(dump) => self.print_backtrace(dump, out),
            None => {
                assert(output_texts(out@) + seq![] =~= output_texts(out@));
            },
        }
    }

    /// Prints the names of the addresses in a full line.
    fn print_addresses(&self, full_line: &str, line_is_data: bool, out: &mut Vec<Output>) -> (done:
        Result<(), LookupError>)
        ensures
            ({
                let shown = self@.resolve_full(full_line@, line_is_data);
                &&& output_texts(final(out)@) == output_texts(old(out)@) + shown.pieces
                &&& shown.error == (match done {
                    Ok(_) => None,
                    Err(error) => Some(error),
                })
            }),
    {
        assert(output_texts(out@) + seq![] =~= output_texts(out@));
        // If we have loaded some symbols and address resolution is not
        // disabled...
        if self.disable_address_resolution {
            return Ok(());
        }
        // The contents of a stack dump are data rather than code addresses, so
        // resolving them only produces noise; the backtrace decoded from the
        // dump replaces that.
        if line_is_data && !self.try_resolve_all_addresses {
            return Ok(());
        }
        resolve_by_all(&self.symbols, full_line, out, self.try_resolve_all_addresses)
    }

    /// Prints a complete line, with the names of the addresses in it and the
    /// backtrace of a stack dump that it completes.
    #[verifier::rlimit(40)]
    fn print_line(&mut self, line: &str, out: &mut Vec<Output>) -> (done: Result<(), LookupError>)
        ensures
            final(self)@ == old(self)@.after_line(line@),
            ({
                let shown = old(self)@.print_line(line@);
                &&& output_texts(final(out)@) == output_texts(old(out)@) + shown.pieces
                &&& shown.error == (match done {
                    Ok(_) => None,
                    Err(error) => Some(error),
                })
            }),
    {
        let ghost state = self@;
        let ghost before = output_texts(out@);
        let (full_line, kind) = self.complete(line);
        let ghost next = self@;
        let ghost line_kind = kind@;
        let (dump, line_is_data) = match &kind {
            Line::Other => (None, false),
            Line::Data => (None, true),
            Line::Complete { dump, includes_line } => (Some(&**dump), *includes_line),
        };
        proof {
            lemma_after_line(state, line@);
            lemma_print_line_parts(state, line@);
        }
        let ghost parts = line_parts(state, line@);
        // A dump which ended before this line is decoded first, so that its
        // backtrace directly follows it.
        self.print_dump(
            if line_is_data {
                None
            } else {
                dump
            },
            out,
        );
        assert(output_texts(out@) == before + parts.0);
        // ... and print the line.
        push_output(out, Output::Plain(line.to_owned()));
        // Remember to begin a new line after we have printed this one!
        push_output(out, Output::Plain("\r\n".to_owned()));
        assert(output_texts(out@) =~= before + (parts.0 + parts.1));
        let ghost middle = output_texts(out@);
        match self.print_addresses(full_line.as_str(), line_is_data, out) {
            Ok(()) => {},
            Err(error) => {
                assert(output_texts(out@) =~= before + (parts.0 + parts.1 + parts.2.pieces));
                return Err(error);
            },
        }
        assert(output_texts(out@) =~= before + (parts.0 + parts.1 + parts.2.pieces));
        // A dump contained in this line is decoded after printing it.
        self.print_dump(
            if line_is_data {
                dump
            } else {
                None
            },
            out,
        );
        assert(output_texts(out@) =~= before + (parts.0 + parts.1 + parts.2.pieces + parts.3));
        Ok(())
    }

    /// Prints output of the device: adds the pieces to print to `out`. Returns
    /// the size of the output.
    ///
    /// An error ends the printing early; it means that the debug info of an ELF
    /// file is malformed.
    #[verifier::rlimit(40)]
    pub fn write(&mut self, buf: &[u8], out: &mut Vec<Output>) -> (written: Result<
        usize,
        LookupError,
    >)
        ensures
            ({
                let (state, shown) = old(self)@.print(buf@);
                &&& final(self)@ == state
                &&& output_texts(final(out)@) == output_texts(old(out)@) + shown.pieces
                &&& match written {
                    Ok(len) => shown.error is None && len == buf@.len(),
                    Err(error) => shown.error == Some(error),
                }
            }),
    {
        let ghost before = output_texts(out@);
        let ghost bytes = self@.pending + normalized(buf@);
        let ghost start_state = PrinterState { pending: pending(bytes), ..self@ };
        let text = self.merger.process_utf8(buf);
        assert(self@ =~= start_state);
        let chars = chars_of(text.as_str());
        let len: usize = chars.len();
        let ghost all = complete_lines(chars@, 0);
        let ghost target = start_state.print_lines(all);
        let ghost mut sofar: Seq<OutputText> = seq![];
        let mut start: usize = 0;
        assert(before + sofar =~= before);
        assert(sofar + target.1.pieces =~= target.1.pieces);
        // Iterate through all *complete* lines (ie. those ending with '\n') ...
        loop
            invariant
                0 <= start <= chars@.len() == len,
                chars@ == decoded(bytes),
                bytes == old(self)@.pending + normalized(buf@),
                start_state == (PrinterState { pending: pending(bytes), ..old(self)@ }),
                target == start_state.print_lines(complete_lines(chars@, 0)),
                before == output_texts(old(out)@),
                output_texts(out@) == before + sofar,
                last_line(chars@, 0) == last_line(chars@, start as int),
                ({
                    let (state, rest) = self@.print_lines(complete_lines(chars@, start as int));
                    target == (
                        state,
                        Printed { pieces: sofar + rest.pieces, error: rest.error },
                    )
                }),
            ensures
                line_end(chars@, start as int) == chars@.len(),
            decreases chars@.len() - start,
        {
            let Some(end) = find_line_end(&chars, start) else {
                break;
            };
            let line_stop: usize = if end > start && chars[end - 1] == '\r' {
                end - 1
            } else {
                end
            };
            let line = string_of(slice_subrange(chars.as_slice(), start, line_stop));
            let ghost rest = complete_lines(chars@, end + 1);
            let ghost shown = self@.print_line(line@);
            proof {
                assert(line@ =~= without_cr(chars@.subrange(start as int, end as int)));
                assert(complete_lines(chars@, start as int) == seq![line@] + rest);
                assert((seq![line@] + rest).drop_first() =~= rest);
                assert(before + sofar + shown.pieces =~= before + (sofar + shown.pieces));
            }
            match self.print_line(line.as_str(), out) {
                Ok(()) => {},
                Err(error) => return Err(error),
            }
            proof {
                let (last, more) = self@.print_lines(rest);
                assert(sofar + (shown.pieces + more.pieces) =~= sofar + shown.pieces
                    + more.pieces);
                sofar = sofar + shown.pieces;
            }
            start = end + 1;
        }
        proof {
            assert(complete_lines(chars@, start as int) =~= seq![]);
            assert(sofar + seq![] =~= sofar);
        }
        // If there is an incomplete line we will still print it. However, we
        // will not perform function name lookups or terminate it with a
        // newline.
        let tail = string_of(slice_subrange(chars.as_slice(), start, chars.len()));
        assert(tail@ =~= last_line(chars@, 0));
        if start < chars.len() {
            self.line_fragment.append(tail.as_str());
            push_output(out, Output::Plain(tail));
            assert(output_texts(out@) =~= before + (sofar + seq![OutputText::Plain(tail@)]));
        }
        Ok(buf.len())
    }
}

} // verus!
