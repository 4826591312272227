//! Printing of the serial output, with addresses resolved and stack dumps
//! decoded.
use crate::output::{output_texts, push_output, Output, OutputText};
use crate::patterns::{address_at, addresses, find_iter, FN_ADDR};
use crate::symbols::{elf_location, elf_name, place_text, symbol_files, LookupError, Symbols};
use crate::text::{
    begins_with, chars_of, decimal_text, hex_text, hex_value, is_text, parse_hex, push_decimal,
    push_hex, starts_with, trim, trimmed,
};
use vstd::prelude::*;
use vstd::slice::slice_subrange;
use vstd::string::*;

verus! {

/// What was printed, and the error that ended it early, if any.
#[verifier::ext_equal]
pub struct Printed {
    /// The pieces that were printed.
    pub pieces: Seq<OutputText>,
    /// Why it ended early.
    pub error: Option<LookupError>,
}

impl Printed {
    /// Followed by more output, unless it ended early.
    pub open spec fn followed_by(self, next: Printed) -> Printed {
        if self.error is Some {
            self
        } else {
            Printed { pieces: self.pieces + next.pieces, error: next.error }
        }
    }
}

/// Output without an error.
pub open spec fn printed(pieces: Seq<OutputText>) -> Printed {
    Printed { pieces, error: None }
}

/// Whether addresses in the line aren't resolved. Such lines are output from the
/// first stage bootloader mostly about loading the 2nd stage bootloader. The
/// resolved addresses are not useful and mostly confusing noise.
pub open spec fn is_suppressed(line: Seq<char>) -> bool {
    begins_with(line, "Saved PC:"@) || begins_with(line, "load:0x"@) || begins_with(
        line,
        "entry 0x"@,
    )
}

/// A resolved address as it is printed. An address with a line of its own isn't
/// repeated.
pub open spec fn resolved_text(
    line: Seq<char>,
    matched: Seq<char>,
    addr: nat,
    name: Seq<char>,
    location: Option<(Seq<char>, u32)>,
) -> Seq<char> {
    let head = if trimmed(line) == "0x"@ + hex_text(addr) {
        name
    } else {
        matched + " - "@ + name
    };
    head + "\r\n    at "@ + place_line(location) + "\r\n"@
}

/// A place in the source code as it is printed.
pub open spec fn place_line(location: Option<(Seq<char>, u32)>) -> Seq<char> {
    match location {
        Some((file, number)) => file + ":"@ + decimal_text(number as nat),
        None => "??:??"@,
    }
}

/// What is printed for an address that was found in a line.
pub open spec fn printed_address(elf: Seq<u8>, line: Seq<char>, matched: Seq<char>) -> Printed {
    match hex_value(matched.skip(2), u32::MAX as nat) {
        Some(addr) => match elf_name(elf, addr as u64) {
            Ok(Some(name)) => printed(
                seq![
                    OutputText::Highlighted(
                        resolved_text(line, matched, addr, name, elf_location(elf, addr as u64)),
                    ),
                ],
            ),
            Ok(None) => printed(seq![]),
            Err(error) => Printed { pieces: seq![], error: Some(error) },
        },
        None => printed(seq![]),
    }
}

/// What is printed for the addresses that were found in a line.
pub open spec fn printed_addresses(
    elf: Seq<u8>,
    line: Seq<char>,
    found: Seq<Seq<char>>,
) -> Printed
    decreases found.len(),
{
    if found.len() == 0 {
        printed(seq![])
    } else {
        printed_addresses(elf, line, found.drop_last()).followed_by(
            printed_address(elf, line, found.last()),
        )
    }
}

/// What is printed for the addresses in a line.
pub open spec fn resolved_line(elf: Seq<u8>, line: Seq<char>, resolve_all: bool) -> Printed {
    if !resolve_all && is_suppressed(line) {
        printed(seq![])
    } else {
        printed_addresses(elf, line, addresses(line, 0))
    }
}

/// Appends a place in the source code.
fn push_place(text: &mut String, location: &Option<(String, u32)>)
    ensures
        final(text)@ == old(text)@ + place_line(place_text(*location)),
{
    match location {
        Some((file, number)) => {
            text.append(file.as_str());
            text.append(":");
            push_decimal(text, *number as u64);
            assert(text@ =~= old(text)@ + (file@ + ":"@ + decimal_text(*number as nat)));
        },
        None => text.append("??:??"),
    }
}

/// Whether the line is the address and nothing else.
fn is_own_line(line: &[char], addr: u32) -> (own: bool)
    ensures
        own == (trimmed(line@) == "0x"@ + hex_text(addr as nat)),
{
    let mut text = String::new();
    text.append("0x");
    push_hex(&mut text, addr as u64);
    assert(text@ =~= "0x"@ + hex_text(addr as nat));
    let (start, end) = trim(line);
    is_text(slice_subrange(line, start, end), text.as_str())
}

/// Formats a resolved address.
pub fn format_address(
    line: &[char],
    matched: &str,
    addr: u32,
    name: String,
    location: Option<(String, u32)>,
) -> (text: String)
    ensures
        text@ == resolved_text(line@, matched@, addr as nat, name@, place_text(location)),
{
    let mut text = String::new();
    if !is_own_line(line, addr) {
        text.append(matched);
        text.append(" - ");
        text.append(name.as_str());
        assert(text@ =~= matched@ + " - "@ + name@);
    } else {
        text.append(name.as_str());
        assert(text@ =~= name@);
    }
    text.append("\r\n    at ");
    push_place(&mut text, &location);
    text.append("\r\n");
    text
}

/// Whether addresses in the line aren't resolved.
fn suppressed(line: &[char]) -> (suppressed: bool)
    ensures
        suppressed == is_suppressed(line@),
{
    starts_with(line, "Saved PC:") || starts_with(line, "load:0x") || starts_with(line, "entry 0x")
}

/// Prints the name and location of an address that was found in a line.
fn resolve_address(
    symbols: &Symbols<'_>,
    line: &[char],
    matched: &str,
    out: &mut Vec<Output>,
) -> (done: Result<(), LookupError>)
    requires
        matched@.len() >= 2,
    ensures
        ({
            let shown = printed_address(symbols@, line@, matched@);
            &&& output_texts(final(out)@) == output_texts(old(out)@) + shown.pieces
            &&& shown.error == (match done {
                Ok(_) => None,
                Err(error) => Some(error),
            })
        }),
{
    let chars = chars_of(matched);
    let digits = slice_subrange(chars.as_slice(), 2, chars.len());
    assert(digits@ =~= matched@.skip(2));
    assert(output_texts(out@) + seq![] =~= output_texts(out@));
    let Some(addr) = parse_hex(digits, u32::MAX) else {
        return Ok(());
    };
    let name = symbols.name(addr as u64)?;
    let Some(name) = name else {
        return Ok(());
    };
    let location = symbols.location(addr as u64);
    let text = format_address(line, matched, addr, name, location);
    push_output(out, Output::Highlighted(text));
    assert(output_texts(out@) =~= output_texts(old(out)@) + printed_address(
        symbols@,
        line@,
        matched@,
    ).pieces);
    Ok(())
}

/// An address is ten characters long.
proof fn lemma_addresses(line: Seq<char>, i: int)
    ensures
        forall|k: int|
            0 <= k < addresses(line, i).len() ==> (#[trigger] addresses(line, i)[k]).len() == 10,
    decreases line.len() - i,
{
    if 0 <= i < line.len() {
        if address_at(line, i) {
            let rest = addresses(line, i + 10);
            lemma_addresses(line, i + 10);
            assert forall|k: int| 0 <= k < addresses(line, i).len() implies (#[trigger] addresses(
                line,
                i,
            )[k]).len() == 10 by {
                assert(k > 0 ==> addresses(line, i)[k] == rest[k - 1]);
            }
        } else {
            lemma_addresses(line, i + 1);
            assert(addresses(line, i) == addresses(line, i + 1));
        }
    } else {
        assert(addresses(line, i) =~= seq![]);
    }
}

/// What is printed for the addresses after an error: nothing.
proof fn lemma_error_ends_addresses(
    elf: Seq<u8>,
    line: Seq<char>,
    found: Seq<Seq<char>>,
    n: int,
)
    requires
        0 <= n <= found.len(),
        printed_addresses(elf, line, found.take(n)).error is Some,
    ensures
        printed_addresses(elf, line, found) == printed_addresses(elf, line, found.take(n)),
    decreases found.len(),
{
    if n == found.len() {
        assert(found.take(n) =~= found);
    } else {
        assert(found.drop_last().take(n) =~= found.take(n));
        lemma_error_ends_addresses(elf, line, found.drop_last(), n);
    }
}

/// Prints the names and locations of the addresses in a line.
///
/// Addresses in lines of the bootloader, which are well known to be misleading,
/// are only resolved if `try_resolve_all_addresses` is set.
#[verifier::rlimit(40)]
pub fn resolve_addresses(
    symbols: &Symbols<'_>,
    line: &str,
    out: &mut Vec<Output>,
    try_resolve_all_addresses: bool,
) -> (done: Result<(), LookupError>)
    ensures
        ({
            let shown = resolved_line(symbols@, line@, try_resolve_all_addresses);
            &&& output_texts(final(out)@) == output_texts(old(out)@) + shown.pieces
            &&& shown.error == (match done {
                Ok(_) => None,
                Err(error) => Some(error),
            })
        }),
{
    let ghost before = output_texts(out@);
    let chars = chars_of(line);
    assert(before + seq![] =~= before);
    // suppress resolving well known misleading addresses
    if !try_resolve_all_addresses && suppressed(&chars) {
        return Ok(());
    }
    // Check the line for function addresses. For each address found, attempt to
    // look up the associated function's name and location and print both.
    let found = find_iter(FN_ADDR, line);
    let ghost all = addresses(line@, 0);
    assert(all =~= found@.map_values(|text: String| text@));
    let mut i: usize = 0;
    assert(all.take(0) =~= seq![]);
    while i < found.len()
        invariant
            0 <= i <= found@.len(),
            chars@ == line@,
            all == addresses(line@, 0),
            all == found@.map_values(|text: String| text@),
            output_texts(out@) == before + printed_addresses(
                symbols@,
                line@,
                all.take(i as int),
            ).pieces,
            printed_addresses(symbols@, line@, all.take(i as int)).error is None,
            before == output_texts(old(out)@),
            try_resolve_all_addresses || !is_suppressed(line@),
        decreases found@.len() - i,
    {
        let matched = &found[i];
        let ghost shown = printed_addresses(symbols@, line@, all.take(i as int));
        let ghost next = printed_address(symbols@, line@, matched@);
        proof {
            lemma_addresses(line@, 0);
            assert(all[i as int] == matched@);
            assert(all.take(i + 1).drop_last() =~= all.take(i as int));
            assert(before + shown.pieces + next.pieces =~= before + (shown.pieces + next.pieces));
        }
        match resolve_address(symbols, &chars, matched.as_str(), out) {
            Ok(()) => {},
            Err(error) => {
                proof {
                    lemma_error_ends_addresses(symbols@, line@, all, i + 1);
                }
                return Err(error);
            },
        }
        i += 1;
    }
    assert(all.take(all.len() as int) =~= all);
    Ok(())
}

/// What is printed for the addresses in a line, per each of the ELF files.
pub open spec fn resolved_by_all(elfs: Seq<Seq<u8>>, line: Seq<char>, resolve_all: bool) -> Printed
    decreases elfs.len(),
{
    if elfs.len() == 0 {
        printed(seq![])
    } else {
        resolved_by_all(elfs.drop_last(), line, resolve_all).followed_by(
            resolved_line(elfs.last(), line, resolve_all),
        )
    }
}

/// What is printed by the ELF files after an error: nothing.
proof fn lemma_error_ends_files(elfs: Seq<Seq<u8>>, line: Seq<char>, resolve_all: bool, n: int)
    requires
        0 <= n <= elfs.len(),
        resolved_by_all(elfs.take(n), line, resolve_all).error is Some,
    ensures
        resolved_by_all(elfs, line, resolve_all) == resolved_by_all(
            elfs.take(n),
            line,
            resolve_all,
        ),
    decreases elfs.len(),
{
    if n == elfs.len() {
        assert(elfs.take(n) =~= elfs);
    } else {
        assert(elfs.drop_last().take(n) =~= elfs.take(n));
        lemma_error_ends_files(elfs.drop_last(), line, resolve_all, n);
    }
}

/// Prints the names and locations of the addresses in a line, per each of the
/// given symbols.
#[verifier::rlimit(40)]
pub fn resolve_by_all(
    symbols: &[Symbols<'_>],
    line: &str,
    out: &mut Vec<Output>,
    try_resolve_all_addresses: bool,
) -> (done: Result<(), LookupError>)
    ensures
        ({
            let shown = resolved_by_all(
                symbol_files(symbols@),
                line@,
                try_resolve_all_addresses,
            );
            &&& output_texts(final(out)@) == output_texts(old(out)@) + shown.pieces
            &&& shown.error == (match done {
                Ok(_) => None,
                Err(error) => Some(error),
            })
        }),
{
    let ghost before = output_texts(out@);
    let ghost elfs = symbol_files(symbols@);
    let mut i: usize = 0;
    assert(elfs.take(0) =~= seq![]);
    assert(before + seq![] =~= before);
    while i < symbols.len()
        invariant
            0 <= i <= symbols@.len(),
            elfs == symbol_files(symbols@),
            before == output_texts(old(out)@),
            output_texts(out@) == before + resolved_by_all(
                elfs.take(i as int),
                line@,
                try_resolve_all_addresses,
            ).pieces,
            resolved_by_all(elfs.take(i as int), line@, try_resolve_all_addresses).error is None,
        decreases symbols@.len() - i,
    {
        let ghost shown = resolved_by_all(
            elfs.take(i as int),
            line@,
            try_resolve_all_addresses,
        );
        let ghost next = resolved_line(symbols@[i as int]@, line@, try_resolve_all_addresses);
        proof {
            assert(elfs.take(i + 1).drop_last() =~= elfs.take(i as int));
            assert(before + shown.pieces + next.pieces =~= before + (shown.pieces + next.pieces));
        }
        match resolve_addresses(&symbols[i], line, out, try_resolve_all_addresses) {
            Ok(()) => {},
            Err(error) => {
                proof {
                    lemma_error_ends_files(elfs, line@, try_resolve_all_addresses, i + 1);
                }
                return Err(error);
            },
        }
        i += 1;
    }
    assert(elfs.take(elfs.len() as int) =~= elfs);
    Ok(())
}

} // verus!
