//! What holds of the names that are printed for addresses.
use crate::output::OutputText;
use crate::parser::{
    is_suppressed, printed_address, printed_addresses, resolved_by_all, resolved_line,
};
use crate::patterns::{address_at, addresses, hex_end, is_hex};
use crate::symbols::{elf_location, elf_name, LookupError};
use crate::text::{decimal_text, digit_value, digits_value, hex_text, hex_value, trimmed};
use vstd::prelude::*;

verus! {

/// Whether the line is output of the bootloader, whose addresses are misleading.
pub open spec fn is_of_bootloader(line: Seq<char>) -> bool {
    "Saved PC:"@.is_prefix_of(line) || "load:0x"@.is_prefix_of(line) || "entry 0x"@.is_prefix_of(
        line,
    )
}

/// The address that is written as `0x` and its digits.
pub open spec fn written_address(matched: Seq<char>) -> u64 {
    digits_value(matched.skip(2))->0 as u64
}

/// The piece that is printed for an address of a line: its name, and where it is in the
/// source code. The address comes first, unless it is all there is in the line.
pub open spec fn is_name_of(
    elf: Seq<u8>,
    line: Seq<char>,
    matched: Seq<char>,
    name: Seq<char>,
    piece: OutputText,
) -> bool {
    let addr = written_address(matched);
    let own_line = trimmed(line) == "0x"@ + hex_text(addr as nat);
    let head = if own_line {
        seq![]
    } else {
        matched + " - "@
    };
    let place = match elf_location(elf, addr) {
        Some((file, number)) => file + ":"@ + decimal_text(number as nat),
        None => "??:??"@,
    };
    piece == OutputText::Highlighted(head + name + "\r\n    at "@ + place + "\r\n"@)
}

/// Whether the pieces are the names of the addresses that have one, in their order, with
/// nothing for the others.
pub open spec fn are_names_of(
    elf: Seq<u8>,
    line: Seq<char>,
    found: Seq<Seq<char>>,
    pieces: Seq<OutputText>,
) -> bool
    decreases found.len(),
{
    if found.len() == 0 {
        pieces.len() == 0
    } else {
        match elf_name(elf, written_address(found.last())) {
            Ok(Some(name)) => pieces.len() > 0 && is_name_of(
                elf,
                line,
                found.last(),
                name,
                pieces.last(),
            ) && are_names_of(elf, line, found.drop_last(), pieces.drop_last()),
            _ => are_names_of(elf, line, found.drop_last(), pieces),
        }
    }
}

/// An address is `0x` (or `0X`) and eight hexadecimal digits.
pub open spec fn is_written_address(text: Seq<char>) -> bool {
    &&& text.len() == 10
    &&& text[0] == '0'
    &&& text[1] == 'x' || text[1] == 'X'
    &&& forall|i: int| 2 <= i < 10 ==> digit_value(#[trigger] text[i]) is Some
}

/// Characters up to an end are hexadecimal digits.
proof fn lemma_hex_end(text: Seq<char>, i: int, max: int)
    requires
        0 <= i <= max,
        hex_end(text, i, max) == max,
    ensures
        forall|j: int| i <= j < max ==> j < text.len() && digit_value(#[trigger] text[j]) is Some,
    decreases max - i,
{
    if i < max {
        lemma_hex_end(text, i + 1, max);
    }
}

/// Hexadecimal digits end where the first other character is.
proof fn lemma_hex_end_reached(text: Seq<char>, i: int, max: int)
    requires
        0 <= i <= max <= text.len(),
        forall|j: int| i <= j < max ==> digit_value(#[trigger] text[j]) is Some,
    ensures
        hex_end(text, i, max) == max,
    decreases max - i,
{
    if i < max {
        assert(is_hex(text[i]));
        lemma_hex_end_reached(text, i + 1, max);
    }
}

/// Where an address is found, there is one.
proof fn lemma_address_at(line: Seq<char>, i: int)
    requires
        0 <= i,
    ensures
        address_at(line, i) <==> i + 10 <= line.len() && is_written_address(
            line.subrange(i, i + 10),
        ),
{
    reveal_strlit("0x");
    reveal_strlit("0X");
    if i + 10 <= line.len() {
        let text = line.subrange(i, i + 10);
        let rest = line.skip(i);
        assert(rest.len() >= 10);
        assert(rest.take(2) =~= seq![line[i], line[i + 1]]);
        assert(text[0] == line[i] && text[1] == line[i + 1]);
        if address_at(line, i) {
            lemma_hex_end(line, i + 2, i + 10);
            assert(rest.take(2)[0] == '0');
            assert(rest.take(2)[1] == 'x' || rest.take(2)[1] == 'X');
            assert forall|j: int| 2 <= j < 10 implies digit_value(#[trigger] text[j]) is Some by {
                assert(text[j] == line[i + j]);
            }
        }
        if is_written_address(text) {
            assert forall|j: int| i + 2 <= j < i + 10 implies digit_value(
                #[trigger] line[j],
            ) is Some by {
                assert(text[j - i] == line[j]);
            }
            lemma_hex_end_reached(line, i + 2, i + 10);
            assert(rest.take(2) =~= "0x"@ || rest.take(2) =~= "0X"@);
        }
    }
}

/// The addresses in a line are found from left to right: an address at its beginning comes
/// first and the search goes on after it, and a character that no address begins with is
/// skipped.
pub proof fn law_addresses_are_found_from_left_to_right(line: Seq<char>, i: int)
    requires
        0 <= i < line.len(),
    ensures
        i + 10 <= line.len() && is_written_address(line.subrange(i, i + 10)) ==> addresses(line, i)
            == seq![line.subrange(i, i + 10)] + addresses(line, i + 10),
        !(i + 10 <= line.len() && is_written_address(line.subrange(i, i + 10))) ==> addresses(
            line,
            i,
        ) == addresses(line, i + 1),
        addresses(line, line.len() as int).len() == 0,
{
    lemma_address_at(line, i);
}

/// What is found in a line are addresses.
proof fn lemma_found_addresses(line: Seq<char>, i: int)
    requires
        0 <= i,
    ensures
        forall|k: int|
            0 <= k < addresses(line, i).len() ==> is_written_address(
                #[trigger] addresses(line, i)[k],
            ),
    decreases line.len() - i,
{
    if i < line.len() {
        lemma_address_at(line, i);
        if address_at(line, i) {
            let rest = addresses(line, i + 10);
            lemma_found_addresses(line, i + 10);
            assert forall|k: int| 0 <= k < addresses(line, i).len() implies is_written_address(
                #[trigger] addresses(line, i)[k],
            ) by {
                if k > 0 {
                    assert(addresses(line, i)[k] == rest[k - 1]);
                }
            }
        } else {
            lemma_found_addresses(line, i + 1);
            assert(addresses(line, i) == addresses(line, i + 1));
        }
    } else {
        assert(addresses(line, i) =~= seq![]);
    }
}

/// Digits have a value, which is less than the next power of sixteen.
proof fn lemma_digits_have_value(digits: Seq<char>, n: nat, bound: nat)
    requires
        digits.len() == n,
        n <= 8,
        forall|i: int| 0 <= i < n ==> digit_value(#[trigger] digits[i]) is Some,
        bound == power(n),
    ensures
        digits_value(digits) matches Some(value) && value < bound,
    decreases n,
{
    if n > 0 {
        let rest = digits.drop_last();
        assert forall|i: int| 0 <= i < n - 1 implies digit_value(#[trigger] rest[i]) is Some by {
            assert(rest[i] == digits[i]);
        }
        lemma_digits_have_value(rest, (n - 1) as nat, power((n - 1) as nat));
        assert(digit_value(digits[n - 1]) is Some);
        assert(power(n) == 16 * power((n - 1) as nat));
    }
}

/// Sixteen to the power of `n`.
spec fn power(n: nat) -> nat
    decreases n,
{
    if n == 0 {
        1
    } else {
        16 * power((n - 1) as nat)
    }
}

/// The value of an address that was found in a line.
proof fn lemma_written_address(matched: Seq<char>)
    requires
        is_written_address(matched),
    ensures
        hex_value(matched.skip(2), u32::MAX as nat) == Some(written_address(matched) as nat),
        written_address(matched) <= u32::MAX,
{
    let digits = matched.skip(2);
    assert forall|i: int| 0 <= i < 8 implies digit_value(#[trigger] digits[i]) is Some by {
        assert(digits[i] == matched[i + 2]);
    }
    assert(power(8) == 0x1_0000_0000) by {
        reveal_with_fuel(power, 9);
    }
    lemma_digits_have_value(digits, 8, power(8));
    assert(digit_value(digits[0]) is Some);
}

/// What is printed for one address.
proof fn lemma_printed_address(elf: Seq<u8>, line: Seq<char>, matched: Seq<char>)
    requires
        is_written_address(matched),
    ensures
        match elf_name(elf, written_address(matched)) {
            Ok(Some(name)) => {
                let shown = printed_address(elf, line, matched);
                shown.error is None && shown.pieces.len() == 1 && is_name_of(
                    elf,
                    line,
                    matched,
                    name,
                    shown.pieces[0],
                )
            },
            Ok(None) => printed_address(elf, line, matched).error is None && printed_address(
                elf,
                line,
                matched,
            ).pieces.len() == 0,
            Err(error) => printed_address(elf, line, matched).error == Some(error)
                && printed_address(elf, line, matched).pieces.len() == 0,
        },
{
    lemma_written_address(matched);
    let addr = written_address(matched);
    if let Ok(Some(name)) = elf_name(elf, addr) {
        let location = elf_location(elf, addr);
        let own_line = trimmed(line) == "0x"@ + hex_text(addr as nat);
        if own_line {
            assert(seq![] + name =~= name);
        }
        assert(is_name_of(elf, line, matched, name, printed_address(elf, line, matched).pieces[0]));
    }
}

/// What is printed for addresses that can all be looked up.
proof fn lemma_printed_names(elf: Seq<u8>, line: Seq<char>, found: Seq<Seq<char>>)
    requires
        forall|k: int| 0 <= k < found.len() ==> is_written_address(#[trigger] found[k]),
        forall|k: int|
            0 <= k < found.len() ==> elf_name(elf, written_address(#[trigger] found[k])) is Ok,
    ensures
        printed_addresses(elf, line, found).error is None,
        are_names_of(elf, line, found, printed_addresses(elf, line, found).pieces),
    decreases found.len(),
{
    if found.len() > 0 {
        let rest = found.drop_last();
        assert forall|k: int| 0 <= k < rest.len() implies is_written_address(#[trigger] rest[k])
            && elf_name(elf, written_address(rest[k])) is Ok by {
            assert(rest[k] == found[k]);
        }
        let matched = found[found.len() - 1];
        lemma_printed_names(elf, line, rest);
        lemma_printed_address(elf, line, matched);
        let pieces = printed_addresses(elf, line, found).pieces;
        let before = printed_addresses(elf, line, rest).pieces;
        if let Ok(Some(name)) = elf_name(elf, written_address(matched)) {
            assert(pieces.drop_last() =~= before);
        } else {
            assert(pieces =~= before);
        }
    }
}

/// Every address with a known name is resolved: for a line that isn't of the bootloader, or
/// if all addresses are to be resolved, the names of the addresses in it are printed in
/// their order, each once, and nothing else, as long as no lookup fails. In lines of the
/// bootloader nothing is resolved otherwise.
pub proof fn law_addresses_with_names_are_resolved(
    elf: Seq<u8>,
    line: Seq<char>,
    resolve_all: bool,
)
    ensures
        (resolve_all || !is_of_bootloader(line)) && (forall|k: int|
            0 <= k < addresses(line, 0).len() ==> elf_name(
                elf,
                written_address(#[trigger] addresses(line, 0)[k]),
            ) is Ok) ==> {
            let shown = resolved_line(elf, line, resolve_all);
            shown.error is None && are_names_of(elf, line, addresses(line, 0), shown.pieces)
        },
        !resolve_all && is_of_bootloader(line) ==> {
            let shown = resolved_line(elf, line, resolve_all);
            shown.error is None && shown.pieces.len() == 0
        },
{
    let found = addresses(line, 0);
    lemma_bootloader(line);
    lemma_found_addresses(line, 0);
    if (resolve_all || !is_of_bootloader(line)) && (forall|k: int|
        0 <= k < found.len() ==> elf_name(elf, written_address(#[trigger] found[k])) is Ok) {
        lemma_printed_names(elf, line, found);
    }
}

/// Which lines are of the bootloader.
proof fn lemma_bootloader(line: Seq<char>)
    ensures
        is_suppressed(line) == is_of_bootloader(line),
{
    lemma_prefix(line, "Saved PC:"@);
    lemma_prefix(line, "load:0x"@);
    lemma_prefix(line, "entry 0x"@);
}

/// A text begins with its prefixes.
proof fn lemma_prefix(text: Seq<char>, prefix: Seq<char>)
    ensures
        crate::text::begins_with(text, prefix) == prefix.is_prefix_of(text),
{
    if prefix.len() <= text.len() {
        assert(text.take(prefix.len() as int) =~= text.subrange(0, prefix.len() as int));
    }
}

/// The first lookup that fails ends the printing: what comes before it is printed as usual.
pub proof fn law_failed_lookup_ends_line(
    elf: Seq<u8>,
    line: Seq<char>,
    resolve_all: bool,
    n: int,
    error: LookupError,
)
    requires
        resolve_all || !is_of_bootloader(line),
        0 <= n < addresses(line, 0).len(),
        forall|k: int|
            0 <= k < n ==> elf_name(
                elf,
                written_address(#[trigger] addresses(line, 0)[k]),
            ) is Ok,
        elf_name(elf, written_address(addresses(line, 0)[n])) == Err::<
            Option<Seq<char>>,
            LookupError,
        >(error),
    ensures
        resolved_line(elf, line, resolve_all).error == Some(error),
        are_names_of(
            elf,
            line,
            addresses(line, 0).take(n),
            resolved_line(elf, line, resolve_all).pieces,
        ),
{
    let found = addresses(line, 0);
    lemma_bootloader(line);
    lemma_found_addresses(line, 0);
    let before = found.take(n);
    assert forall|k: int| 0 <= k < n implies is_written_address(#[trigger] before[k]) && elf_name(
        elf,
        written_address(before[k]),
    ) is Ok by {
        assert(before[k] == found[k]);
    }
    lemma_printed_names(elf, line, before);
    lemma_printed_address(elf, line, found[n]);
    let upto = found.take(n + 1);
    assert(upto.drop_last() =~= before);
    assert(upto.last() == found[n]);
    assert(printed_addresses(elf, line, upto).pieces =~= printed_addresses(
        elf,
        line,
        before,
    ).pieces);
    lemma_error_stays(elf, line, found, n + 1);
}

/// Nothing is printed after an error.
proof fn lemma_error_stays(elf: Seq<u8>, line: Seq<char>, found: Seq<Seq<char>>, n: int)
    requires
        0 <= n <= found.len(),
        printed_addresses(elf, line, found.take(n)).error is Some,
    ensures
        printed_addresses(elf, line, found) == printed_addresses(elf, line, found.take(n)),
    decreases found.len(),
{
    if n == found.len() {
        assert(found.take(n) =~= found);
    } else {
        assert(found.drop_last().take(n) =~= found.take(n));
        lemma_error_stays(elf, line, found.drop_last(), n);
    }
}

/// A line is resolved with each of the ELF files, one after the other, up to the first for
/// which a lookup fails.
pub proof fn law_line_is_resolved_with_each_file(
    elfs: Seq<Seq<u8>>,
    elf: Seq<u8>,
    line: Seq<char>,
    resolve_all: bool,
)
    ensures
        resolved_by_all(Seq::<Seq<u8>>::empty(), line, resolve_all).pieces.len() == 0,
        resolved_by_all(Seq::<Seq<u8>>::empty(), line, resolve_all).error is None,
        ({
            let before = resolved_by_all(elfs, line, resolve_all);
            let own = resolved_line(elf, line, resolve_all);
            let all = resolved_by_all(elfs.push(elf), line, resolve_all);
            &&& before.error is Some ==> all == before
            &&& before.error is None ==> all.pieces == before.pieces + own.pieces && all.error
                == own.error
        }),
{
    assert(elfs.push(elf).drop_last() =~= elfs);
}

} // verus!
