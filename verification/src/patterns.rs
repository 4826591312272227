//! The patterns that the monitor looks for in the output.
use crate::text::{begins_with, digit_value, skip_white};
use regex::Regex;
use vstd::prelude::*;
use vstd::utf8::is_ascii_chars;

verus! {

/// The start of a register dump, e.g. `Core  0 register dump:`.
pub const REGISTER_DUMP_HEADER: &'static str = r"^Core\s+(\d+) register dump:";

/// A `NAME : 0xVALUE` pair of a register dump line, e.g. `S0/FP   :
/// 0x4227e2a4`.
pub const REGISTER: &'static str = r"([A-Z][A-Z0-9/]*)\s*:\s*0x([[:xdigit:]]{1,8})";

/// A line of the stack memory dump: the address followed by words.
pub const STACK_LINE: &'static str = r"^([[:xdigit:]]{8}):((?:\s+0x[[:xdigit:]]{8})+)\s*$";

/// A function address in the output.
pub const FN_ADDR: &'static str = r"0[xX][[:xdigit:]]{8}";

/// Whether `text` has the given characters at `i`.
pub open spec fn has_at(text: Seq<char>, i: int, part: Seq<char>) -> bool {
    0 <= i <= text.len() && begins_with(text.skip(i), part)
}

/// Whether the character is a hexadecimal digit.
pub open spec fn is_hex(c: char) -> bool {
    digit_value(c) is Some
}

/// The index of the first character from `i` on that isn't a hexadecimal digit,
/// but at most `max`.
pub open spec fn hex_end(text: Seq<char>, i: int, max: int) -> int
    decreases max - i,
{
    if 0 <= i < text.len() && i < max && is_hex(text[i]) {
        hex_end(text, i + 1, max)
    } else {
        i
    }
}

/// The index of the first character from `i` on that isn't a decimal digit.
pub open spec fn decimal_end(text: Seq<char>, i: int) -> int
    decreases text.len() - i,
{
    if 0 <= i < text.len() && '0' <= text[i] <= '9' {
        decimal_end(text, i + 1)
    } else {
        i
    }
}

/// The index of the first character from `i` on that can't be part of the name
/// of a register.
pub open spec fn name_end(text: Seq<char>, i: int) -> int
    decreases text.len() - i,
{
    if 0 <= i < text.len() && ('A' <= text[i] <= 'Z' || '0' <= text[i] <= '9' || text[i] == '/') {
        name_end(text, i + 1)
    } else {
        i
    }
}

/// Whether the line, all ASCII, begins with `Core`, white space, a number and
/// ` register dump:`.
pub open spec fn ascii_header(line: Seq<char>) -> bool {
    let number = skip_white(line, 4);
    let end = decimal_end(line, number);
    has_at(line, 0, "Core"@) && 4 < number < end && has_at(line, end, " register dump:"@)
}

/// Whether a regular expression matches somewhere in the text.
pub uninterp spec fn regex_matches(pattern: Seq<char>, text: Seq<char>) -> bool;

/// Whether the line is the start of a register dump.
pub open spec fn is_header(line: Seq<char>) -> bool {
    if is_ascii_chars(line) {
        ascii_header(line)
    } else {
        regex_matches(REGISTER_DUMP_HEADER@, line)
    }
}

/// The ends of the parts of a register pair at `i`, if there is one: the end of
/// its name, and the start and the end of its digits.
pub open spec fn register_at(line: Seq<char>, i: int) -> Option<(int, int, int)> {
    let name = name_end(line, i);
    let colon = skip_white(line, name);
    let value = skip_white(line, colon + 1);
    let end = hex_end(line, value + 2, value + 10);
    if 0 <= i < line.len() && 'A' <= line[i] <= 'Z' && has_at(line, colon, ":"@) && has_at(
        line,
        value,
        "0x"@,
    ) && i < value + 2 < end {
        Some((name, value + 2, end))
    } else {
        None
    }
}

/// The register pairs in a line from `i` on, as the name and the digits of each.
pub open spec fn register_pairs(line: Seq<char>, i: int) -> Seq<(Seq<char>, Seq<char>)>
    decreases line.len() - i,
{
    if i < 0 || i >= line.len() {
        seq![]
    } else {
        match register_at(line, i) {
            Some((name, value, end)) if i < end <= line.len() => seq![
                (line.subrange(i, name), line.subrange(value, end)),
            ] + register_pairs(line, end),
            _ => register_pairs(line, i + 1),
        }
    }
}

/// The index after the words from `i` on, each of which is white space, `0x` and
/// eight digits.
pub open spec fn words_end(line: Seq<char>, i: int) -> int
    decreases line.len() - i,
{
    let word = skip_white(line, i);
    if i < word && has_at(line, word, "0x"@) && hex_end(line, word + 2, word + 10) == word + 10
        && word + 10 <= line.len() {
        words_end(line, word + 10)
    } else {
        i
    }
}

/// The address and the words of a line of a stack memory dump, if it is one.
pub open spec fn stack_line(line: Seq<char>) -> Option<(Seq<char>, Seq<char>)> {
    let end = words_end(line, 9);
    if hex_end(line, 0, 8) == 8 && has_at(line, 8, ":"@) && 9 < end && skip_white(line, end)
        == line.len() {
        Some((line.take(8), line.subrange(9, end)))
    } else {
        None
    }
}

/// Whether there is an address at `i`: `0x` or `0X` and eight digits.
pub open spec fn address_at(line: Seq<char>, i: int) -> bool {
    i + 10 <= line.len() && (has_at(line, i, "0x"@) || has_at(line, i, "0X"@)) && hex_end(
        line,
        i + 2,
        i + 10,
    ) == i + 10
}

/// The addresses in a line from `i` on.
pub open spec fn addresses(line: Seq<char>, i: int) -> Seq<Seq<char>>
    decreases line.len() - i,
{
    if i < 0 || i >= line.len() {
        seq![]
    } else if address_at(line, i) {
        seq![line.subrange(i, i + 10)] + addresses(line, i + 10)
    } else {
        addresses(line, i + 1)
    }
}

/// The characters of a pair of strings.
pub open spec fn pair_text(pair: (String, String)) -> (Seq<char>, Seq<char>) {
    (pair.0@, pair.1@)
}

/// Checks whether a line is the start of a register dump, with
/// `regex::Regex::is_match`. Which characters beyond ASCII are digits is left to
/// the `regex` crate.
#[verifier::external_body]
pub(crate) fn is_match(pattern: &str, line: &str) -> (matched: bool)
    requires
        pattern@ == REGISTER_DUMP_HEADER@,
    ensures
        matched == regex_matches(pattern@, line@),
        is_ascii_chars(line@) ==> matched == ascii_header(line@),
{
    Regex::new(pattern).unwrap().is_match(line)
}

/// Finds the register pairs in a line from left to right, with
/// `regex::Regex::captures_iter`.
#[verifier::external_body]
pub(crate) fn captures_iter(pattern: &str, line: &str) -> (pairs: Vec<(String, String)>)
    requires
        pattern@ == REGISTER@,
    ensures
        pairs@.map_values(|pair: (String, String)| pair_text(pair)) == register_pairs(line@, 0),
{
    let regex = Regex::new(pattern).unwrap();
    regex.captures_iter(line).map(|c| (c[1].to_string(), c[2].to_string())).collect()
}

/// Matches a line of a stack memory dump, with `regex::Regex::captures`.
#[verifier::external_body]
pub(crate) fn captures(pattern: &str, line: &str) -> (groups: Option<(String, String)>)
    requires
        pattern@ == STACK_LINE@,
    ensures
        stack_line(line@) == (match groups {
            Some(groups) => Some(pair_text(groups)),
            None => None,
        }),
{
    let regex = Regex::new(pattern).unwrap();
    regex.captures(line).map(|c| (c[1].to_string(), c[2].to_string()))
}

/// Finds the addresses in a line from left to right, with
/// `regex::Regex::find_iter`.
#[verifier::external_body]
pub(crate) fn find_iter(pattern: &str, line: &str) -> (found: Vec<String>)
    requires
        pattern@ == FN_ADDR@,
    ensures
        found@.map_values(|text: String| text@) == addresses(line@, 0),
{
    let regex = Regex::new(pattern).unwrap();
    regex.find_iter(line).map(|m| m.as_str().to_string()).collect()
}

} // verus!
