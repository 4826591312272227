//! What holds of the text that is read and written.
use crate::line_endings::normalized;
use crate::patterns::{
    decimal_end, has_at, hex_end, is_header, is_hex, name_end, register_at, register_pairs,
    words_end,
};
use crate::stack_dump::esp_idf::{stack_words, word_values};
use crate::text::{
    complete_lines, decimal_text, digit_value, digits_value, hex_digits, hex_text,
    hex_value, is_lower_hex, is_white, last_line, lemma_hex_digits, line_end, skip_white, trimmed,
    word_end, words_from,
};
use crate::utf8_merger::{
    decoded, first_chunk, fits, lemma_begins_char, lemma_valid_first_scalar, pending, width, Chunk,
};
use vstd::prelude::*;
use vstd::utf8::is_ascii_chars;

verus! {

/// The value of a digit, in either case; other characters have none.
pub proof fn law_digits_have_values(c: char, value: nat)
    ensures
        c == '0' || c == '1' || c == '2' || c == '3' || c == '4' || c == '5' || c == '6' || c == '7'
            || c == '8' || c == '9' ==> digit_value(c) == Some((c as u32 - 48) as nat),
        'a' <= c <= 'f' ==> digit_value(c) == Some((c as u32 - 97 + 10) as nat),
        'A' <= c <= 'F' ==> digit_value(c) == Some((c as u32 - 65 + 10) as nat),
        !('0' <= c <= '9') && !('a' <= c <= 'f') && !('A' <= c <= 'F') ==> digit_value(c) is None,
        digit_value(c) == Some(value) ==> value < 16,
{
}

/// White space is the characters with that property in Unicode.
pub proof fn law_white_space_is_that_of_unicode(c: char)
    ensures
        is_white(c) <==> {
            let code = c as u32;
            ||| 9 <= code <= 13
            ||| code == 32
            ||| code == 0x85
            ||| code == 0xa0
            ||| code == 0x1680
            ||| 0x2000 <= code <= 0x200a
            ||| code == 0x2028
            ||| code == 0x2029
            ||| code == 0x202f
            ||| code == 0x205f
            ||| code == 0x3000
        },
{
}

/// A number is read digit by digit, each worth sixteen times the next one.
pub proof fn law_numbers_are_hexadecimal(digits: Seq<char>, c: char, max: nat)
    ensures
        hex_value(seq![], max) is None,
        digits.len() > 0 && digits[0] != '+' ==> hex_value(digits.push(c), max) == (match (
            digits_value(digits),
            digit_value(c),
        ) {
            (Some(value), Some(digit)) if 16 * value + digit <= max => Some(16 * value + digit),
            _ => None,
        }),
        c != '+' ==> hex_value(seq![c], max) == (match digit_value(c) {
            Some(digit) if digit <= max => Some(digit),
            _ => None,
        }),
        digits.len() > 0 && digits[0] != '+' ==> hex_value(digits, max) == (match digits_value(
            digits,
        ) {
            Some(value) if value <= max => Some(value),
            _ => None,
        }),
        digits.len() == 0 || digits[0] != '+' ==> hex_value(seq!['+'] + digits, max) == hex_value(
            digits,
            max,
        ),
{
    let more = digits.push(c);
    assert(more.drop_last() =~= digits);
    assert((seq!['+'] + digits).drop_first() =~= digits);
    assert(seq![c].drop_last() =~= seq![]);
    assert(digits_value(seq![c].drop_last()) == Some(0nat));
}

/// The value of a number in decimal digits.
pub open spec fn decimal_value(digits: Seq<char>) -> Option<nat>
    decreases digits.len(),
{
    if digits.len() == 0 {
        Some(0)
    } else {
        match decimal_value(digits.drop_last()) {
            Some(value) if '0' <= digits.last() <= '9' => Some(
                (10 * value + (digits.last() as u32 - 48)) as nat,
            ),
            _ => None,
        }
    }
}

/// A number in decimal reads back as that number, and doesn't begin with a zero unless it is
/// zero.
pub proof fn law_decimal_numbers_read_back(value: nat)
    ensures
        decimal_value(decimal_text(value)) == Some(value),
        decimal_text(value).len() > 0,
        value > 0 ==> decimal_text(value)[0] != '0',
        value == 0 ==> decimal_text(value).len() == 1,
    decreases value,
{
    let text = decimal_text(value);
    if value < 10 {
        assert(text.drop_last() =~= seq![]);
        assert(decimal_value(text.drop_last()) == Some(0nat));
    } else {
        law_decimal_numbers_read_back(value / 10);
        assert(text.drop_last() =~= decimal_text(value / 10));
        assert(text[0] == decimal_text(value / 10)[0]);
    }
}

/// A number in hexadecimal reads back as that number, in lower case, and doesn't begin with
/// a zero unless it is zero.
pub proof fn law_hexadecimal_numbers_read_back(value: nat)
    ensures
        digits_value(hex_text(value)) == Some(value),
        hex_text(value).len() > 0,
        value > 0 ==> hex_text(value)[0] != '0',
        value == 0 ==> hex_text(value).len() == 1,
        forall|i: int|
            0 <= i < hex_text(value).len() ==> is_lower_hex(#[trigger] hex_text(value)[i]),
    decreases value,
{
    let text = hex_text(value);
    if value < 16 {
        assert(text.drop_last() =~= seq![]);
        assert(digits_value(text.drop_last()) == Some(0nat));
    } else {
        law_hexadecimal_numbers_read_back(value / 16);
        assert(text.drop_last() =~= hex_text(value / 16));
        assert forall|i: int| 0 <= i < text.len() implies is_lower_hex(#[trigger] text[i]) by {
            if i < text.len() - 1 {
                assert(text[i] == hex_text(value / 16)[i]);
            }
        }
        assert(text[0] == hex_text(value / 16)[0]);
    }
}

/// An address in eight digits reads back as that address, in lower case.
pub proof fn law_addresses_read_back(address: u32)
    ensures
        hex_digits(address as nat, 8).len() == 8,
        digits_value(hex_digits(address as nat, 8)) == Some(address as nat),
        forall|i: int|
            0 <= i < 8 ==> ('0' <= (#[trigger] hex_digits(address as nat, 8)[i]) <= '9' || 'a'
                <= hex_digits(address as nat, 8)[i] <= 'f'),
{
    lemma_hex_digits(address as nat, 8);
    assert(hex_value(hex_digits(address as nat, 8), u32::MAX as nat) == Some(address as nat));
    assert(is_lower_hex(hex_digits(address as nat, 8)[0]));
}

/// Whether there is nothing but white space in a text before `i` and from `j` on.
pub open spec fn white_around(text: Seq<char>, i: int, j: int) -> bool {
    &&& 0 <= i <= j <= text.len()
    &&& forall|k: int| 0 <= k < i ==> is_white(#[trigger] text[k])
    &&& forall|k: int| j <= k < text.len() ==> is_white(#[trigger] text[k])
}

/// Trimming takes away white space at the beginning and the end, all of it and nothing else.
#[verifier::spinoff_prover]
pub proof fn law_trimming_takes_white_space(text: Seq<char>)
    ensures
        exists|i: int, j: int|
            #[trigger] white_around(text, i, j) && trimmed(text) == text.subrange(i, j),
        trimmed(text).len() > 0 ==> !is_white(trimmed(text)[0]) && !is_white(
            trimmed(text)[trimmed(text).len() - 1],
        ),
    decreases text.len(),
{
    if text.len() == 0 {
        assert(white_around(text, 0, 0));
        assert(trimmed(text) =~= text.subrange(0, 0));
    } else if is_white(text[0]) {
        let rest = text.drop_first();
        law_trimming_takes_white_space(rest);
        let (i, j) = choose|i: int, j: int|
            #[trigger] white_around(rest, i, j) && trimmed(rest) == rest.subrange(i, j);
        lemma_white_before(text, i, j);
        assert(text.subrange(i + 1, j + 1) =~= rest.subrange(i, j));
    } else if is_white(text.last()) {
        let rest = text.drop_last();
        law_trimming_takes_white_space(rest);
        let (i, j) = choose|i: int, j: int|
            #[trigger] white_around(rest, i, j) && trimmed(rest) == rest.subrange(i, j);
        lemma_white_after(text, i, j);
        assert(text.subrange(i, j) =~= rest.subrange(i, j));
    } else {
        assert(white_around(text, 0, text.len() as int));
        assert(trimmed(text) =~= text.subrange(0, text.len() as int));
    }
}

/// White space before a text that has some around it.
proof fn lemma_white_before(text: Seq<char>, i: int, j: int)
    requires
        text.len() > 0,
        is_white(text[0]),
        white_around(text.drop_first(), i, j),
    ensures
        white_around(text, i + 1, j + 1),
{
    let rest = text.drop_first();
    assert forall|k: int| 0 <= k < i + 1 implies is_white(#[trigger] text[k]) by {
        if k > 0 {
            assert(is_white(rest[k - 1]));
        }
    }
    assert forall|k: int| j + 1 <= k < text.len() implies is_white(#[trigger] text[k]) by {
        assert(is_white(rest[k - 1]));
    }
}

/// White space after a text that has some around it.
proof fn lemma_white_after(text: Seq<char>, i: int, j: int)
    requires
        text.len() > 0,
        is_white(text.last()),
        white_around(text.drop_last(), i, j),
    ensures
        white_around(text, i, j),
{
    let rest = text.drop_last();
    assert forall|k: int| 0 <= k < i implies is_white(#[trigger] text[k]) by {
        assert(is_white(rest[k]));
    }
    assert forall|k: int| j <= k < text.len() implies is_white(#[trigger] text[k]) by {
        if k < rest.len() {
            assert(is_white(rest[k]));
        }
    }
}

/// A text is cut into lines at its line feeds: a line is what comes before the first one,
/// without a carriage return at its end, and the rest is cut likewise. What follows the
/// last line feed isn't a line yet.
pub proof fn law_text_is_cut_into_lines(text: Seq<char>, i: int, end: int)
    requires
        0 <= i <= end <= text.len(),
        forall|j: int| i <= j < end ==> text[j] != '\n',
        end < text.len() ==> text[end] == '\n',
    ensures
        end == text.len() ==> complete_lines(text, i).len() == 0 && last_line(text, i)
            == text.subrange(i, end),
        end < text.len() ==> last_line(text, i) == last_line(text, end + 1),
        end < text.len() && (i == end || text[end - 1] != '\r') ==> complete_lines(text, i)
            == seq![text.subrange(i, end)] + complete_lines(text, end + 1),
        i < end < text.len() && text[end - 1] == '\r' ==> complete_lines(text, i)
            == seq![text.subrange(i, end - 1)] + complete_lines(text, end + 1),
{
    lemma_line_end(text, i, end);
    let line = text.subrange(i, end);
    if end == text.len() {
        assert(text.skip(i) =~= line);
    } else if i < end && text[end - 1] == '\r' {
        assert(line.drop_last() =~= text.subrange(i, end - 1));
    }
}

/// A line ends at the first line feed.
proof fn lemma_line_end(text: Seq<char>, i: int, end: int)
    requires
        0 <= i <= end <= text.len(),
        forall|j: int| i <= j < end ==> text[j] != '\n',
        end < text.len() ==> text[end] == '\n',
    ensures
        line_end(text, i) == end,
    decreases end - i,
{
    if i < end {
        lemma_line_end(text, i + 1, end);
    }
}

/// Normalizing puts a carriage return before each line feed that has none, and changes
/// nothing else.
pub proof fn law_line_feeds_get_carriage_returns(bytes: Seq<u8>, byte: u8)
    ensures
        normalized(seq![]) == Seq::<u8>::empty(),
        byte != 0x0a ==> normalized(bytes.push(byte)) == normalized(bytes).push(byte),
        bytes.len() > 0 && bytes[bytes.len() - 1] == 0x0d ==> normalized(bytes.push(0x0a))
            == normalized(bytes).push(0x0a),
        bytes.len() == 0 || bytes[bytes.len() - 1] != 0x0d ==> normalized(bytes.push(0x0a))
            == normalized(bytes).push(0x0d).push(0x0a),
{
    assert(bytes.push(byte).drop_last() =~= bytes);
    assert(bytes.push(0x0a).drop_last() =~= bytes);
    assert(normalized(bytes).push(0x0d).push(0x0a) =~= normalized(bytes) + seq![0x0du8, 0x0a]);
}

/// How many bytes of a sequence that doesn't begin with a character are replaced at once: as
/// many as a character may begin with, but at least one.
pub open spec fn replaced_len(bytes: Seq<u8>) -> int {
    if bytes.len() >= 3 && fits(bytes.take(3)) && width(bytes[0]) > 3 {
        3
    } else if bytes.len() >= 2 && fits(bytes.take(2)) && width(bytes[0]) > 2 {
        2
    } else {
        1
    }
}

/// Bytes that aren't part of a character are replaced by U+FFFD, one for each sequence that
/// may have begun a character, and what follows is decoded as if it stood by itself.
pub proof fn law_invalid_bytes_are_replaced(bytes: Seq<u8>)
    requires
        bytes.len() > 0,
        width(bytes[0]) == 0 || exists|n: int|
            1 < n <= width(bytes[0]) && n <= bytes.len() && !#[trigger] fits(bytes.take(n)),
    ensures
        decoded(bytes) == seq!['\u{fffd}'] + decoded(bytes.skip(replaced_len(bytes))),
        pending(bytes) == pending(bytes.skip(replaced_len(bytes))),
{
    lemma_valid_first_scalar(bytes);
    lemma_begins_char(bytes);
    assert(bytes.take(bytes.len() as int) =~= bytes);
    if width(bytes[0]) > 0 {
        let n = choose|n: int|
            1 < n <= width(bytes[0]) && n <= bytes.len() && !#[trigger] fits(bytes.take(n));
        if bytes.len() >= width(bytes[0]) {
            lemma_fits_prefix(bytes, n, width(bytes[0]));
        }
        lemma_fits_prefix(bytes, n, bytes.len() as int);
    }
    if bytes.len() >= 3 {
        lemma_begins_char(bytes.take(3));
    }
    if bytes.len() >= 2 {
        lemma_begins_char(bytes.take(2));
    }
    assert(first_chunk(bytes) == Chunk::Invalid(replaced_len(bytes) as usize));
}

/// More bytes don't make up for some that don't fit together.
proof fn lemma_fits_prefix(bytes: Seq<u8>, n: int, m: int)
    requires
        1 < n <= bytes.len(),
        n <= width(bytes[0]),
        !fits(bytes.take(n)),
        n <= m <= bytes.len(),
    ensures
        !fits(bytes.take(m)),
{
    let short = bytes.take(n);
    let long = bytes.take(m);
    assert(short[0] == bytes[0] && long[0] == bytes[0]);
    assert(short[1] == bytes[1] && long[1] == bytes[1]);
    if n > 2 {
        assert(short[2] == bytes[2] && long[2] == bytes[2]);
    }
    if n > 3 {
        assert(short[3] == bytes[3] && long[3] == bytes[3]);
    }
}

/// Whether a text is words as they are printed in a dump of the stack memory: a space, `0x`
/// and eight digits for each.
pub open spec fn are_printed_words(text: Seq<char>, words: Seq<u32>) -> bool {
    &&& text.len() == 11 * words.len()
    &&& forall|k: int|
        0 <= k < words.len() ==> text.subrange(11 * k, 11 * k + 11) == seq![' ', '0', 'x']
            + hex_digits(#[trigger] words[k] as nat, 8)
}

/// A line of a dump of the stack memory, as it is printed, is read as its address and its
/// words, of which there must be any. White space at its end doesn't matter.
#[verifier::rlimit(40)]
#[verifier::spinoff_prover]
pub proof fn law_printed_stack_line_is_read(
    line: Seq<char>,
    addr: u32,
    text: Seq<char>,
    words: Seq<u32>,
    tail: Seq<char>,
)
    requires
        line == hex_digits(addr as nat, 8) + seq![':'] + text + tail,
        are_printed_words(text, words),
        words.len() > 0,
        forall|i: int| 0 <= i < tail.len() ==> is_white(#[trigger] tail[i]),
    ensures
        stack_words(line) == Some((addr, words)),
{
    let n = words.len() as int;
    lemma_hex_digits(addr as nat, 8);
    let digits = hex_digits(addr as nat, 8);
    assert forall|i: int| 0 <= i < 8 implies is_lower_hex(#[trigger] line[i]) by {
        assert(line[i] == digits[i]);
    }
    lemma_lower_hex_end(line, 0, 8);
    reveal_strlit(":");
    assert(line[8] == ':');
    assert(line.skip(8).take(1) =~= ":"@);
    assert(has_at(line, 8, ":"@));
    let end = 9 + text.len() as int;
    assert forall|i: int| 0 <= i < text.len() implies line[9 + i] == text[i] by {}
    assert forall|i: int| end <= i < line.len() implies is_white(#[trigger] line[i]) by {
        assert(line[i] == tail[i - end]);
    }
    lemma_white_to_end(line, end);
    lemma_words_end(line, text, words, 0);
    assert(line.take(8) =~= digits);
    assert(line.subrange(9, end) =~= text);
    lemma_words_from(text, words, 0);
    lemma_word_values(text, words, 0);
    assert(words.skip(0) =~= words);
}

/// Lower case digits are digits.
proof fn lemma_lower_hex_end(text: Seq<char>, i: int, max: int)
    requires
        0 <= i <= max <= text.len(),
        forall|j: int| i <= j < max ==> is_lower_hex(#[trigger] text[j]),
    ensures
        hex_end(text, i, max) == max,
    decreases max - i,
{
    if i < max {
        assert(is_lower_hex(text[i]));
        assert(is_hex(text[i]));
        lemma_lower_hex_end(text, i + 1, max);
    }
}

/// The characters of a printed word.
proof fn lemma_printed_word(text: Seq<char>, words: Seq<u32>, k: int)
    requires
        are_printed_words(text, words),
        0 <= k < words.len(),
    ensures
        11 * k + 11 <= text.len(),
        text[11 * k] == ' ',
        text[11 * k + 1] == '0',
        text[11 * k + 2] == 'x',
        forall|i: int| 11 * k + 3 <= i < 11 * k + 11 ==> is_lower_hex(#[trigger] text[i]),
        text.subrange(11 * k + 3, 11 * k + 11) == hex_digits(words[k] as nat, 8),
{
    lemma_hex_digits(words[k] as nat, 8);
    let digits = hex_digits(words[k] as nat, 8);
    let word = text.subrange(11 * k, 11 * k + 11);
    assert(word == seq![' ', '0', 'x'] + digits);
    assert(word[0] == text[11 * k]);
    assert(word[1] == text[11 * k + 1]);
    assert(word[2] == text[11 * k + 2]);
    assert forall|i: int| 11 * k + 3 <= i < 11 * k + 11 implies is_lower_hex(
        #[trigger] text[i],
    ) by {
        assert(word[i - 11 * k] == text[i]);
        assert(word[i - 11 * k] == digits[i - 11 * k - 3]);
    }
    assert(text.subrange(11 * k + 3, 11 * k + 11) =~= digits) by {
        assert forall|i: int| 0 <= i < 8 implies text[11 * k + 3 + i] == digits[i] by {
            assert(word[i + 3] == text[11 * k + 3 + i]);
        }
    }
}

/// Printed words are recognized up to the end of the line.
proof fn lemma_words_end(line: Seq<char>, text: Seq<char>, words: Seq<u32>, k: int)
    requires
        are_printed_words(text, words),
        0 <= k <= words.len(),
        line.len() >= 9 + text.len(),
        forall|i: int| 0 <= i < text.len() ==> line[9 + i] == text[i],
        skip_white(line, 9 + text.len() as int) == line.len(),
    ensures
        words_end(line, 9 + 11 * k) == 9 + text.len(),
    decreases words.len() - k,
{
    let i = 9 + 11 * k;
    if k < words.len() {
        lemma_printed_word(text, words, k);
        reveal_strlit("0x");
        assert(line[i] == text[11 * k]);
        assert(line[i + 1] == text[11 * k + 1]);
        assert(line[i + 2] == text[11 * k + 2]);
        assert(is_white(' ') && !is_white('0'));
        assert(skip_white(line, i + 1) == i + 1);
        assert(skip_white(line, i) == i + 1);
        assert(line.skip(i + 1).take(2) =~= "0x"@);
        assert(has_at(line, i + 1, "0x"@));
        assert forall|j: int| i + 3 <= j < i + 11 implies is_lower_hex(#[trigger] line[j]) by {
            assert(line[9 + (j - 9)] == text[j - 9]);
        }
        lemma_lower_hex_end(line, i + 3, i + 11);
        lemma_words_end(line, text, words, k + 1);
        assert(i + 11 == 9 + 11 * (k + 1));
    } else {
        reveal_strlit("0x");
        assert(!has_at(line, line.len() as int, "0x"@));
    }
}

/// White space up to the end of a line.
proof fn lemma_white_to_end(line: Seq<char>, i: int)
    requires
        0 <= i <= line.len(),
        forall|j: int| i <= j < line.len() ==> is_white(#[trigger] line[j]),
    ensures
        skip_white(line, i) == line.len(),
    decreases line.len() - i,
{
    if i < line.len() {
        assert(is_white(line[i]));
        lemma_white_to_end(line, i + 1);
    }
}

/// What follows the first `k` words of a printed text.
spec fn word_texts(text: Seq<char>, words: Seq<u32>, k: int) -> Seq<Seq<char>> {
    Seq::new(
        (words.len() - k) as nat,
        |i: int| text.subrange(11 * (k + i) + 1, 11 * (k + i) + 11),
    )
}

/// Printed words are separated by their spaces.
proof fn lemma_words_from(text: Seq<char>, words: Seq<u32>, k: int)
    requires
        are_printed_words(text, words),
        0 <= k <= words.len(),
    ensures
        words_from(text, 11 * k) == word_texts(text, words, k),
    decreases words.len() - k,
{
    let i = 11 * k;
    if k < words.len() {
        lemma_printed_word(text, words, k);
        assert(is_white(' ') && !is_white('0') && !is_white('x'));
        assert(skip_white(text, i + 1) == i + 1);
        assert(skip_white(text, i) == i + 1);
        assert forall|j: int| i + 1 <= j < i + 11 implies !is_white(#[trigger] text[j]) by {
            if j >= i + 3 {
                assert(is_lower_hex(text[j]));
            }
        }
        if k + 1 < words.len() {
            lemma_printed_word(text, words, k + 1);
            assert(11 * (k + 1) == i + 11);
        }
        lemma_word_end(text, i + 1, i + 11);
        lemma_words_from(text, words, k + 1);
        assert(11 * (k + 1) == i + 11);
        assert(word_texts(text, words, k) =~= seq![text.subrange(i + 1, i + 11)] + word_texts(
            text,
            words,
            k + 1,
        )) by {
            let rest = word_texts(text, words, k + 1);
            assert forall|j: int| 0 < j < words.len() - k implies word_texts(text, words, k)[j]
                == rest[j - 1] by {
                assert(k + 1 + (j - 1) == k + j);
            }
        }
    } else {
        assert(skip_white(text, i) == i);
        assert(word_end(text, i) == i);
        assert(words_from(text, i) =~= word_texts(text, words, k));
    }
}

/// A word ends at the next white space.
proof fn lemma_word_end(text: Seq<char>, i: int, end: int)
    requires
        0 <= i <= end <= text.len(),
        forall|j: int| i <= j < end ==> !is_white(#[trigger] text[j]),
        end < text.len() ==> is_white(text[end]),
    ensures
        word_end(text, i) == end,
    decreases end - i,
{
    if i < end {
        lemma_word_end(text, i + 1, end);
    }
}

/// Printed words have their values.
proof fn lemma_word_values(text: Seq<char>, words: Seq<u32>, k: int)
    requires
        are_printed_words(text, words),
        0 <= k <= words.len(),
    ensures
        word_values(word_texts(text, words, k)) == words.skip(k),
    decreases words.len() - k,
{
    let texts = word_texts(text, words, k);
    if k < words.len() {
        lemma_printed_word(text, words, k);
        lemma_hex_digits(words[k] as nat, 8);
        lemma_word_values(text, words, k + 1);
        assert(texts[0].skip(2) =~= text.subrange(11 * k + 3, 11 * k + 11));
        let rest = word_texts(text, words, k + 1);
        assert(texts.drop_first() =~= rest) by {
            assert forall|j: int| 0 <= j < rest.len() implies texts.drop_first()[j] == rest[j] by {
                assert(k + (j + 1) == k + 1 + j);
            }
        }
        assert(words.skip(k) =~= seq![words[k]] + words.skip(k + 1));
    } else {
        assert(words.skip(k) =~= seq![]);
    }
}

/// Whether the character may be part of the name of a register.
pub open spec fn is_name_char(c: char) -> bool {
    'A' <= c <= 'Z' || '0' <= c <= '9' || c == '/'
}

/// A pair of a register dump line is a name in capital letters, a colon with white space
/// around it, `0x`, and up to eight digits: it is read as that name and those digits, and
/// the search goes on after it.
pub proof fn law_register_pair_is_read(
    line: Seq<char>,
    i: int,
    name: int,
    colon: int,
    value: int,
    end: int,
)
    requires
        0 <= i < name <= colon < value < end <= line.len(),
        'A' <= line[i] <= 'Z',
        forall|j: int| i <= j < name ==> is_name_char(#[trigger] line[j]),
        !is_name_char(line[name]),
        forall|j: int| name <= j < colon ==> is_white(#[trigger] line[j]),
        line[colon] == ':',
        forall|j: int| colon < j < value ==> is_white(#[trigger] line[j]),
        value + 2 < end <= value + 10,
        line[value] == '0',
        line[value + 1] == 'x',
        forall|j: int| value + 2 <= j < end ==> digit_value(#[trigger] line[j]) is Some,
        end == value + 10 || end == line.len() || digit_value(line[end]) is None,
    ensures
        register_pairs(line, i) == seq![
            (line.subrange(i, name), line.subrange(value + 2, end)),
        ] + register_pairs(line, end),
{
    reveal_strlit(":");
    reveal_strlit("0x");
    lemma_name_end(line, i, name);
    assert(!is_white(':') && !is_white('0'));
    lemma_skip_white(line, name, colon);
    lemma_skip_white(line, colon + 1, value);
    lemma_digits_end(line, value + 2, end, value + 10);
    assert(line.skip(colon).take(1) =~= ":"@);
    assert(line.skip(value).take(2) =~= "0x"@);
    assert(has_at(line, colon, ":"@));
    assert(has_at(line, value, "0x"@));
    assert(register_at(line, i) == Some((name, value + 2, end)));
}

/// No pair begins with anything but a capital letter.
pub proof fn law_register_pairs_begin_with_a_letter(line: Seq<char>, i: int)
    requires
        0 <= i < line.len(),
        !('A' <= line[i] <= 'Z'),
    ensures
        register_pairs(line, i) == register_pairs(line, i + 1),
        register_pairs(line, line.len() as int).len() == 0,
{
}

/// The name of a register ends where it does.
proof fn lemma_name_end(line: Seq<char>, i: int, end: int)
    requires
        0 <= i <= end < line.len(),
        forall|j: int| i <= j < end ==> is_name_char(#[trigger] line[j]),
        !is_name_char(line[end]),
    ensures
        name_end(line, i) == end,
    decreases end - i,
{
    if i < end {
        assert(is_name_char(line[i]));
        lemma_name_end(line, i + 1, end);
    }
}

/// White space ends where it does.
proof fn lemma_skip_white(line: Seq<char>, i: int, end: int)
    requires
        0 <= i <= end < line.len(),
        forall|j: int| i <= j < end ==> is_white(#[trigger] line[j]),
        !is_white(line[end]),
    ensures
        skip_white(line, i) == end,
    decreases end - i,
{
    if i < end {
        assert(is_white(line[i]));
        lemma_skip_white(line, i + 1, end);
    }
}

/// Digits end where they do.
proof fn lemma_digits_end(line: Seq<char>, i: int, end: int, max: int)
    requires
        0 <= i <= end <= line.len(),
        end <= max,
        forall|j: int| i <= j < end ==> digit_value(#[trigger] line[j]) is Some,
        end == max || end == line.len() || digit_value(line[end]) is None,
    ensures
        hex_end(line, i, max) == end,
    decreases end - i,
{
    if i < end {
        assert(is_hex(line[i]));
        lemma_digits_end(line, i + 1, end, max);
    }
}

/// A register dump begins with a line of `Core`, white space, a number and
/// ` register dump:`, whatever follows; a line of ASCII characters that doesn't begin with
/// `Core` is no such line.
#[verifier::rlimit(40)]
#[verifier::spinoff_prover]
pub proof fn law_register_dump_header_is_recognized(line: Seq<char>, number: int, end: int)
    requires
        is_ascii_chars(line),
    ensures
        !"Core"@.is_prefix_of(line) ==> !is_header(line),
        4 < number < end && end < line.len() && "Core"@.is_prefix_of(line) && (forall|j: int|
            4 <= j < number ==> is_white(#[trigger] line[j])) && (forall|j: int|
            number <= j < end ==> '0' <= (#[trigger] line[j]) <= '9')
            && " register dump:"@.is_prefix_of(line.skip(end)) ==> is_header(line),
{
    reveal_strlit("Core");
    reveal_strlit(" register dump:");
    assert(line.skip(0) =~= line);
    if 4 <= line.len() {
        assert(line.take(4) =~= line.subrange(0, 4));
    }
    if 4 < number < end && end < line.len() && "Core"@.is_prefix_of(line) && (forall|j: int|
        4 <= j < number ==> is_white(#[trigger] line[j])) && (forall|j: int|
        number <= j < end ==> '0' <= (#[trigger] line[j]) <= '9')
        && " register dump:"@.is_prefix_of(line.skip(end)) {
        let rest = line.skip(end);
        assert('0' <= line[number] <= '9');
        assert(!is_white(line[number]));
        lemma_skip_white(line, 4, number);
        assert(rest.take(15) =~= rest.subrange(0, 15));
        assert(rest[0] == rest.subrange(0, 15)[0]);
        assert(line[end] == ' ');
        lemma_decimal_end(line, number, end);
    }
}

/// A number ends where it does.
proof fn lemma_decimal_end(line: Seq<char>, i: int, end: int)
    requires
        0 <= i <= end < line.len(),
        forall|j: int| i <= j < end ==> '0' <= (#[trigger] line[j]) <= '9',
        !('0' <= line[end] <= '9'),
    ensures
        decimal_end(line, i) == end,
    decreases end - i,
{
    if i < end {
        lemma_decimal_end(line, i + 1, end);
    }
}

/// Bytes that a character begins with, but that aren't all of it, wait for the rest of it.
pub proof fn law_incomplete_characters_wait(bytes: Seq<u8>)
    requires
        bytes.len() > 0,
        fits(bytes),
        bytes.len() < width(bytes[0]),
    ensures
        decoded(bytes).len() == 0,
        pending(bytes) == bytes,
{
    lemma_begins_char(bytes);
    lemma_valid_first_scalar(bytes);
}

} // verus!
