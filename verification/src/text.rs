//! Text as the sequence of its characters.
use vstd::prelude::*;
use vstd::string::*;

verus! {

/// `String::push` appends the given character.
pub assume_specification[ String::push ](string: &mut String, ch: char)
    ensures
        final(string)@ == old(string)@.push(ch),
;

/// Whether the character is white space (Unicode property `White_Space`).
pub open spec fn is_white(c: char) -> bool {
    '\u{9}' <= c <= '\u{d}' || c == ' ' || c == '\u{85}' || c == '\u{a0}' || c == '\u{1680}'
        || '\u{2000}' <= c <= '\u{200a}' || c == '\u{2028}' || c == '\u{2029}' || c == '\u{202f}'
        || c == '\u{205f}' || c == '\u{3000}'
}

/// Whether the character is white space (Unicode property `White_Space`).
pub fn is_white_space(c: char) -> (white: bool)
    ensures
        white == is_white(c),
{
    matches!(
        c,
        '\u{9}'..='\u{d}' | ' ' | '\u{85}' | '\u{a0}' | '\u{1680}' | '\u{2000}'..='\u{200a}'
            | '\u{2028}' | '\u{2029}' | '\u{202f}' | '\u{205f}' | '\u{3000}'
    )
}

/// The characters of a string.
pub fn chars_of(text: &str) -> (chars: Vec<char>)
    ensures
        chars@ == text@,
{
    let mut chars: Vec<char> = Vec::new();
    for c in iter: text.chars()
        invariant
            chars@ == text@.take(iter.index()),
            iter.seq() == text@,
    {
        assert(text@.take(iter.index() + 1) =~= text@.take(iter.index()).push(c));
        chars.push(c);
    }
    assert(text@.take(text@.len() as int) =~= text@);
    chars
}

/// The string of the given characters.
pub fn string_of(chars: &[char]) -> (text: String)
    ensures
        text@ == chars@,
{
    let mut text = String::new();
    let mut i: usize = 0;
    while i < chars.len()
        invariant
            0 <= i <= chars@.len(),
            text@ == chars@.take(i as int),
        decreases chars@.len() - i,
    {
        assert(chars@.take(i + 1) =~= chars@.take(i as int).push(chars@[i as int]));
        text.push(chars[i]);
        i += 1;
    }
    assert(chars@.take(chars@.len() as int) =~= chars@);
    text
}

/// The value of a hexadecimal digit.
pub open spec fn digit_value(c: char) -> Option<nat> {
    if '0' <= c <= '9' {
        Some((c as u32 - '0' as u32) as nat)
    } else if 'a' <= c <= 'f' {
        Some((c as u32 - 'a' as u32 + 10) as nat)
    } else if 'A' <= c <= 'F' {
        Some((c as u32 - 'A' as u32 + 10) as nat)
    } else {
        None
    }
}

/// The value of a hexadecimal digit.
pub fn hex_digit(c: char) -> (value: Option<u8>)
    ensures
        digit_value(c) == (match value {
            Some(value) => Some(value as nat),
            None => None,
        }),
        value matches Some(v) ==> v < 16,
{
    let code: u32 = c as u32;
    match c {
        '0'..='9' => Some((code - 48) as u8),
        'a'..='f' => Some((code - 87) as u8),
        'A'..='F' => Some((code - 55) as u8),
        _ => None,
    }
}

/// The value of a sequence of hexadecimal digits.
pub open spec fn digits_value(digits: Seq<char>) -> Option<nat>
    decreases digits.len(),
{
    if digits.len() == 0 {
        Some(0)
    } else {
        match (digits_value(digits.drop_last()), digit_value(digits.last())) {
            (Some(value), Some(digit)) => Some(value * 16 + digit),
            _ => None,
        }
    }
}

/// The hexadecimal number that the text is, if it isn't greater than `max`: an
/// optional `+` sign followed by at least one digit.
pub open spec fn hex_value(text: Seq<char>, max: nat) -> Option<nat> {
    let digits = if text.len() > 0 && text[0] == '+' {
        text.drop_first()
    } else {
        text
    };
    match digits_value(digits) {
        Some(value) if digits.len() > 0 && value <= max => Some(value),
        _ => None,
    }
}

/// More digits don't make a number smaller.
proof fn lemma_digits_grow(digits: Seq<char>, n: int)
    requires
        0 <= n <= digits.len(),
    ensures
        digits_value(digits) matches Some(value) ==> (digits_value(digits.take(n)) matches Some(
            prefix,
        ) && prefix <= value),
    decreases digits.len(),
{
    if n == digits.len() {
        assert(digits.take(n) =~= digits);
    } else {
        lemma_digits_grow(digits.drop_last(), n);
        assert(digits.drop_last().take(n) =~= digits.take(n));
    }
}

/// Parses a hexadecimal number that isn't greater than `max`, with an optional
/// `+` sign.
pub fn parse_hex(text: &[char], max: u32) -> (value: Option<u32>)
    ensures
        hex_value(text@, max as nat) == (match value {
            Some(value) => Some(value as nat),
            None => None,
        }),
        value matches Some(v) ==> v <= max,
{
    let first: usize = if text.len() > 0 && text[0] == '+' {
        1
    } else {
        0
    };
    let ghost digits = text@.skip(first as int);
    assert(first == 1 ==> text@.drop_first() =~= digits);
    assert(first == 0 ==> text@ =~= digits);
    if text.len() == first {
        return None;
    }
    let mut value: u64 = 0;
    let mut i: usize = first;
    assert(digits.take(0) =~= seq![]);
    while i < text.len()
        invariant
            first <= i <= text@.len(),
            digits == text@.skip(first as int),
            hex_value(text@, max as nat) == (match digits_value(digits) {
                Some(value) if value <= max => Some(value),
                _ => None,
            }),
            digits_value(digits.take(i - first)) == Some(value as nat),
            value <= max,
        decreases text@.len() - i,
    {
        let ghost n = i - first;
        assert(digits.take(n + 1).drop_last() =~= digits.take(n));
        assert(digits.take(n + 1).last() == text@[i as int]);
        proof {
            lemma_digits_grow(digits, n + 1);
        }
        let Some(digit) = hex_digit(text[i]) else {
            return None;
        };
        value = value * 16 + digit as u64;
        if value > max as u64 {
            return None;
        }
        i += 1;
    }
    assert(digits.take(digits.len() as int) =~= digits);
    Some(value as u32)
}

/// The lower-case hexadecimal digit of a value below sixteen.
pub open spec fn hex_char(value: nat) -> char {
    if value < 10 {
        ('0' as u32 + value) as char
    } else {
        ('a' as u32 + value - 10) as char
    }
}

/// A number in lower-case hexadecimal.
pub open spec fn hex_text(value: nat) -> Seq<char>
    decreases value,
{
    if value < 16 {
        seq![hex_char(value)]
    } else {
        hex_text(value / 16).push(hex_char(value % 16))
    }
}

/// A number in decimal.
pub open spec fn decimal_text(value: nat) -> Seq<char>
    decreases value,
{
    if value < 10 {
        seq![hex_char(value)]
    } else {
        decimal_text(value / 10).push(hex_char(value % 10))
    }
}

/// The last `width` digits of a number in lower-case hexadecimal.
pub open spec fn hex_digits(value: nat, width: nat) -> Seq<char>
    decreases width,
{
    if width == 0 {
        seq![]
    } else {
        hex_digits(value / 16, (width - 1) as nat).push(hex_char(value % 16))
    }
}

/// Whether the character is a lower-case hexadecimal digit.
pub open spec fn is_lower_hex(c: char) -> bool {
    '0' <= c <= '9' || 'a' <= c <= 'f'
}

/// Sixteen to the power of `n`.
pub open spec fn power_of_16(n: nat) -> nat
    decreases n,
{
    if n == 0 {
        1
    } else {
        16 * power_of_16((n - 1) as nat)
    }
}

/// The digits of a number are as many as were asked for, and their value is that
/// of the number if they suffice.
pub proof fn lemma_hex_digits(value: nat, width: nat)
    ensures
        hex_digits(value, width).len() == width,
        forall|i: int| 0 <= i < width ==> is_lower_hex(#[trigger] hex_digits(value, width)[i]),
        value < power_of_16(width) ==> digits_value(hex_digits(value, width)) == Some(value),
        width == 2 && value <= 0xff ==> hex_value(hex_digits(value, width), 0xff) == Some(value),
        width == 8 && value <= u32::MAX ==> hex_value(hex_digits(value, width), u32::MAX as nat)
            == Some(value),
    decreases width,
{
    let digits = hex_digits(value, width);
    if width > 0 {
        lemma_hex_digits(value / 16, (width - 1) as nat);
        assert(digits.drop_last() =~= hex_digits(value / 16, (width - 1) as nat));
        assert(digit_value(hex_char(value % 16)) == Some(value % 16));
        assert(value < power_of_16(width) ==> value / 16 < power_of_16((width - 1) as nat));
        assert(digits[0] != '+') by {
            assert(is_lower_hex(digits[0]));
        }
        assert(power_of_16(2) == 0x100 && power_of_16(8) == 0x1_0000_0000) by {
            reveal_with_fuel(power_of_16, 9);
        }
    }
}

/// An address as the monitor prints it: `0x` and eight digits.
pub open spec fn address_text(address: u32) -> Seq<char> {
    "0x"@ + hex_digits(address as nat, 8)
}

/// The lower-case hexadecimal digit of a value below sixteen.
fn to_hex_char(value: u8) -> (c: char)
    requires
        value < 16,
    ensures
        c == hex_char(value as nat),
{
    if value < 10 {
        (48 + value) as char
    } else {
        (87 + value) as char
    }
}

/// Appends a number in lower-case hexadecimal.
pub fn push_hex(text: &mut String, value: u64)
    ensures
        final(text)@ == old(text)@ + hex_text(value as nat),
    decreases value,
{
    if value >= 16 {
        push_hex(text, value / 16);
    }
    text.push(to_hex_char((value % 16) as u8));
    assert(text@ =~= old(text)@ + hex_text(value as nat));
}

/// Appends a number in decimal.
pub fn push_decimal(text: &mut String, value: u64)
    ensures
        final(text)@ == old(text)@ + decimal_text(value as nat),
    decreases value,
{
    if value >= 10 {
        push_decimal(text, value / 10);
    }
    text.push(to_hex_char((value % 10) as u8));
    assert(text@ =~= old(text)@ + decimal_text(value as nat));
}

/// Appends the last `width` digits of a number in lower-case hexadecimal.
fn push_hex_digits(text: &mut String, value: u32, width: u8)
    ensures
        final(text)@ == old(text)@ + hex_digits(value as nat, width as nat),
    decreases width,
{
    if width > 0 {
        push_hex_digits(text, value / 16, width - 1);
        text.push(to_hex_char((value % 16) as u8));
    }
    assert(text@ =~= old(text)@ + hex_digits(value as nat, width as nat));
}

/// Appends an address as the monitor prints it.
pub fn push_address(text: &mut String, address: u32)
    ensures
        final(text)@ == old(text)@ + address_text(address),
{
    text.append("0x");
    push_hex_digits(text, address, 8);
    assert(text@ =~= old(text)@ + address_text(address));
}

/// Whether the text begins with `prefix`.
pub open spec fn begins_with(text: Seq<char>, prefix: Seq<char>) -> bool {
    prefix.len() <= text.len() && text.take(prefix.len() as int) == prefix
}

/// Whether the text begins with `prefix`.
pub fn starts_with(text: &[char], prefix: &str) -> (starts: bool)
    ensures
        starts == begins_with(text@, prefix@),
{
    let prefix_chars = chars_of(prefix);
    if prefix_chars.len() > text.len() {
        return false;
    }
    let mut i: usize = 0;
    while i < prefix_chars.len()
        invariant
            0 <= i <= prefix_chars@.len() <= text@.len(),
            prefix_chars@ == prefix@,
            text@.take(i as int) == prefix@.take(i as int),
        decreases prefix_chars@.len() - i,
    {
        assert(text@.take(i + 1) =~= text@.take(i as int).push(text@[i as int]));
        assert(prefix@.take(i + 1) =~= prefix@.take(i as int).push(prefix@[i as int]));
        if text[i] != prefix_chars[i] {
            assert(text@.take(prefix@.len() as int)[i as int] != prefix@[i as int]);
            return false;
        }
        i += 1;
    }
    assert(prefix@.take(prefix@.len() as int) =~= prefix@);
    true
}

/// Whether the text is the given string.
pub fn is_text(text: &[char], other: &str) -> (same: bool)
    ensures
        same == (text@ == other@),
{
    let starts = starts_with(text, other);
    let other_chars = chars_of(other);
    assert(text@.len() == other@.len() ==> text@.take(other@.len() as int) =~= text@);
    starts && text.len() == other_chars.len()
}

/// The index of the first character from `i` on that isn't white space.
pub open spec fn skip_white(text: Seq<char>, i: int) -> int
    decreases text.len() - i,
{
    if 0 <= i < text.len() && is_white(text[i]) {
        skip_white(text, i + 1)
    } else {
        i
    }
}

/// The text without white space at its beginning and end.
pub open spec fn trimmed(text: Seq<char>) -> Seq<char>
    decreases text.len(),
{
    if text.len() == 0 {
        text
    } else if is_white(text[0]) {
        trimmed(text.drop_first())
    } else if is_white(text.last()) {
        trimmed(text.drop_last())
    } else {
        text
    }
}

/// Finds the text without white space at its beginning and end, as the range of
/// its characters.
pub fn trim(text: &[char]) -> (range: (usize, usize))
    ensures
        range.0 <= range.1 <= text@.len(),
        text@.subrange(range.0 as int, range.1 as int) == trimmed(text@),
{
    let mut start: usize = 0;
    let mut end: usize = text.len();
    assert(text@.subrange(0, text@.len() as int) =~= text@);
    while start < end && is_white_space(text[start])
        invariant
            0 <= start <= end == text@.len(),
            trimmed(text@) == trimmed(text@.subrange(start as int, end as int)),
        decreases end - start,
    {
        assert(text@.subrange(start as int, end as int).drop_first() =~= text@.subrange(
            start + 1,
            end as int,
        ));
        start += 1;
    }
    while start < end && is_white_space(text[end - 1])
        invariant
            0 <= start <= end <= text@.len(),
            start < end ==> !is_white(text@[start as int]),
            trimmed(text@) == trimmed(text@.subrange(start as int, end as int)),
        decreases end - start,
    {
        assert(text@.subrange(start as int, end as int).drop_last() =~= text@.subrange(
            start as int,
            end - 1,
        ));
        end -= 1;
    }
    (start, end)
}

/// The index of the first character from `i` on that is white space.
pub open spec fn word_end(text: Seq<char>, i: int) -> int
    decreases text.len() - i,
{
    if 0 <= i < text.len() && !is_white(text[i]) {
        word_end(text, i + 1)
    } else {
        i
    }
}

/// The words of a text from `i` on, which are separated by white space.
pub open spec fn words_from(text: Seq<char>, i: int) -> Seq<Seq<char>>
    decreases text.len() - i,
{
    let start = skip_white(text, i);
    let end = word_end(text, start);
    if i < end <= text.len() && start < end {
        seq![text.subrange(start, end)] + words_from(text, end)
    } else {
        seq![]
    }
}

/// Finds the first character from `i` on that isn't white space.
pub fn find_word(text: &[char], i: usize) -> (start: usize)
    requires
        i <= text@.len(),
    ensures
        i <= start <= text@.len(),
        start == skip_white(text@, i as int),
        start < text@.len() ==> !is_white(text@[start as int]),
{
    let mut start: usize = i;
    while start < text.len() && is_white_space(text[start])
        invariant
            i <= start <= text@.len(),
            skip_white(text@, i as int) == skip_white(text@, start as int),
        decreases text@.len() - start,
    {
        start += 1;
    }
    start
}

/// Finds the first character from `i` on that is white space.
pub fn find_word_end(text: &[char], i: usize) -> (end: usize)
    requires
        i <= text@.len(),
    ensures
        i <= end <= text@.len(),
        end == word_end(text@, i as int),
        i < text@.len() && !is_white(text@[i as int]) ==> i < end,
{
    let mut end: usize = i;
    while end < text.len() && !is_white_space(text[end])
        invariant
            i <= end <= text@.len(),
            word_end(text@, i as int) == word_end(text@, end as int),
            i < text@.len() && !is_white(text@[i as int]) && end == i ==> !is_white(
                text@[end as int],
            ),
        decreases text@.len() - end,
    {
        end += 1;
    }
    end
}

/// The index of the first line feed from `i` on, or the length of the text.
pub open spec fn line_end(text: Seq<char>, i: int) -> int
    decreases text.len() - i,
{
    if 0 <= i < text.len() && text[i] != '\n' {
        line_end(text, i + 1)
    } else {
        i
    }
}

/// A line without the carriage return before its line feed.
pub open spec fn without_cr(line: Seq<char>) -> Seq<char> {
    if line.len() > 0 && line.last() == '\r' {
        line.drop_last()
    } else {
        line
    }
}

/// The lines of a text from `i` on that end with a line feed, without it and
/// without a carriage return before it.
pub open spec fn complete_lines(text: Seq<char>, i: int) -> Seq<Seq<char>>
    decreases text.len() - i,
{
    let end = line_end(text, i);
    if i <= end < text.len() {
        seq![without_cr(text.subrange(i, end))] + complete_lines(text, end + 1)
    } else {
        seq![]
    }
}

/// What follows the last line feed of a text, from `i` on.
pub open spec fn last_line(text: Seq<char>, i: int) -> Seq<char>
    decreases text.len() - i,
{
    let end = line_end(text, i);
    if i <= end < text.len() {
        last_line(text, end + 1)
    } else {
        text.skip(i)
    }
}

/// Finds the first line feed from `i` on, if there is one.
pub fn find_line_end(text: &[char], i: usize) -> (end: Option<usize>)
    requires
        i <= text@.len(),
    ensures
        match end {
            Some(end) => i <= end < text@.len() && end == line_end(text@, i as int),
            None => line_end(text@, i as int) == text@.len(),
        },
{
    let mut end: usize = i;
    while end < text.len() && text[end] != '\n'
        invariant
            i <= end <= text@.len(),
            line_end(text@, i as int) == line_end(text@, end as int),
        decreases text@.len() - end,
    {
        end += 1;
    }
    if end < text.len() {
        Some(end)
    } else {
        None
    }
}

} // verus!
