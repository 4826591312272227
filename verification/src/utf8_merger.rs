//! Decoding of serial output, which may be cut anywhere, as UTF-8.
use crate::line_endings::{
    ends_with_cr, law_pieces_normalize_alike, normalized, push_normalized, LF,
};
use vstd::prelude::*;
use vstd::utf8::{
    decode_first_scalar, decode_utf8, decode_utf8_first_scalar, encode_scalar, encode_utf8,
    encode_utf8_first_scalar, is_continuation_byte, is_scalar, length_of_first_scalar,
    pop_first_scalar, take_first_scalar, valid_first_scalar, valid_utf8,
};

verus! {

/// `char::from_u32` gives the character with the given scalar value; surrogates
/// and values above U+10FFFF have none.
pub assume_specification[ char::from_u32 ](scalar: u32) -> (c: Option<char>)
    ensures
        c == (if is_scalar(scalar) {
            Some(scalar as char)
        } else {
            None::<char>
        }),
;

/// What stands for a sequence of bytes that isn't valid UTF-8.
pub const REPLACEMENT: char = '\u{fffd}';

/// What a sequence of bytes begins with.
#[derive(Clone, Copy, Debug, PartialEq, Eq)]
pub enum Chunk {
    /// A character, in so many bytes.
    Scalar(usize, char),
    /// An invalid sequence of so many bytes.
    Invalid(usize),
    /// A character whose last bytes are missing, and nothing else.
    Incomplete,
}

/// Whether the encoding of some character begins with the bytes and goes on
/// after them.
pub open spec fn begins_char(bytes: Seq<u8>) -> bool {
    exists|c: char| #[trigger] is_beginning(bytes, encode_scalar(c as u32))
}

/// Whether `encoding` begins with the bytes and goes on after them.
pub open spec fn is_beginning(bytes: Seq<u8>, encoding: Seq<u8>) -> bool {
    bytes.len() < encoding.len() && encoding.take(bytes.len() as int) == bytes
}

/// The length of an invalid sequence: as much of it as a character may begin
/// with, but at least one byte.
pub open spec fn invalid_len(bytes: Seq<u8>) -> usize {
    if bytes.len() >= 3 && begins_char(bytes.take(3)) {
        3
    } else if bytes.len() >= 2 && begins_char(bytes.take(2)) {
        2
    } else {
        1
    }
}

/// What a sequence of bytes, which isn't empty, begins with.
pub open spec fn first_chunk(bytes: Seq<u8>) -> Chunk {
    if valid_first_scalar(bytes) {
        Chunk::Scalar(length_of_first_scalar(bytes) as usize, decode_first_scalar(bytes) as char)
    } else if begins_char(bytes) {
        Chunk::Incomplete
    } else {
        Chunk::Invalid(invalid_len(bytes))
    }
}

/// How many bytes a character with the given first byte takes, or zero for one
/// that no character begins with.
pub open spec fn width(first: u8) -> int {
    if first <= 0x7f {
        1
    } else if 0xc2 <= first <= 0xdf {
        2
    } else if 0xe0 <= first <= 0xef {
        3
    } else if 0xf0 <= first <= 0xf4 {
        4
    } else {
        0
    }
}

/// Whether the second byte of a character may follow its first one.
pub open spec fn follows(first: u8, second: u8) -> bool {
    if first == 0xe0 {
        0xa0 <= second <= 0xbf
    } else if first == 0xed {
        0x80 <= second <= 0x9f
    } else if first == 0xf0 {
        0x90 <= second <= 0xbf
    } else if first == 0xf4 {
        0x80 <= second <= 0x8f
    } else {
        0x80 <= second <= 0xbf
    }
}

/// Which bytes are the beginning of a character, or all of it.
pub open spec fn fits(bytes: Seq<u8>) -> bool {
    &&& 0 < bytes.len() <= width(bytes[0])
    &&& bytes.len() > 1 ==> follows(bytes[0], bytes[1])
    &&& bytes.len() > 2 ==> is_continuation_byte(bytes[2])
    &&& bytes.len() > 3 ==> is_continuation_byte(bytes[3])
}

/// A sequence of bytes begins with a character if its first byte and as many
/// more as that one asks for fit together.
pub proof fn lemma_valid_first_scalar(bytes: Seq<u8>)
    ensures
        valid_first_scalar(bytes) <==> {
            &&& bytes.len() > 0
            &&& 0 < width(bytes[0]) <= bytes.len()
            &&& fits(bytes.take(width(bytes[0])))
        },
        valid_first_scalar(bytes) ==> length_of_first_scalar(bytes) == width(bytes[0]),
        valid_first_scalar(bytes) ==> is_scalar(decode_first_scalar(bytes)),
{
    if bytes.len() > 0 {
        let a = bytes[0];
        assert(width(a) <= bytes.len() ==> bytes.take(width(a)).len() == width(a));
        assert((a & 0x7f) as u32 <= 0x7f) by (bit_vector);
        if bytes.len() > 1 {
            let b = bytes[1];
            assert(0xc0 <= a <= 0xdf && 0x80 <= b <= 0xbf ==> {
                let code = (((a & 0x1f) as u32) << 6) | ((b & 0x3f) as u32);
                &&& code <= 0x7ff
                &&& (0x80 <= code) == (0xc2 <= a)
            }) by (bit_vector);
            if bytes.len() > 2 {
                let c = bytes[2];
                assert(0xe0 <= a <= 0xef && 0x80 <= b <= 0xbf && 0x80 <= c <= 0xbf ==> {
                    let code = (((a & 0x0f) as u32) << 12) | (((b & 0x3f) as u32) << 6) | ((c
                        & 0x3f) as u32);
                    &&& code <= 0xffff
                    &&& (0x800 <= code && !(0xd800 <= code && code <= 0xdfff)) == ((a == 0xe0
                        ==> 0xa0 <= b) && (a == 0xed ==> b <= 0x9f))
                }) by (bit_vector);
                if bytes.len() > 3 {
                    let d = bytes[3];
                    assert(0xf0 <= a <= 0xf7 && 0x80 <= b <= 0xbf && 0x80 <= c <= 0xbf && 0x80 <= d
                        <= 0xbf ==> {
                        let code = (((a & 0x07) as u32) << 18) | (((b & 0x3f) as u32) << 12) | (((c
                            & 0x3f) as u32) << 6) | ((d & 0x3f) as u32);
                        (0x10000 <= code && code <= 0x10ffff && !(0xd800 <= code && code <= 0xdfff))
                            == (a <= 0xf4 && (a == 0xf0 ==> 0x90 <= b) && (a == 0xf4 ==> b <= 0x8f))
                    }) by (bit_vector);
                }
            }
        }
    }
}

/// The encoding of a character is a sequence of bytes that fit together.
proof fn lemma_encoding_fits(c: char)
    ensures
        ({
            let encoding = encode_scalar(c as u32);
            &&& encoding.len() > 0
            &&& encoding.len() == width(encoding[0])
            &&& fits(encoding)
        }),
{
    let encoding = encode_scalar(c as u32);
    encode_utf8_first_scalar(seq![c]);
    assert(seq![c].drop_first() =~= seq![]);
    assert(encode_utf8(seq![c].drop_first()) =~= seq![]);
    assert(encode_utf8(seq![c]) =~= encoding);
    lemma_valid_first_scalar(encoding);
    assert(encoding.take(encoding.len() as int) =~= encoding);
}

/// A character that a sequence of bytes which fit together is, if it is complete.
proof fn lemma_fits_encodes(bytes: Seq<u8>)
    requires
        fits(bytes),
        bytes.len() == width(bytes[0]),
    ensures
        encode_scalar((decode_first_scalar(bytes) as char) as u32) == bytes,
{
    lemma_valid_first_scalar(bytes);
    assert(bytes.take(bytes.len() as int) =~= bytes);
    assert(pop_first_scalar(bytes) =~= seq![]);
    reveal_with_fuel(valid_utf8, 2);
    decode_utf8_first_scalar(bytes);
    assert(take_first_scalar(bytes) =~= bytes);
}

/// Some character begins with a sequence of bytes if they fit together but
/// aren't all that their first one asks for.
pub proof fn lemma_begins_char(bytes: Seq<u8>)
    requires
        bytes.len() > 0,
    ensures
        begins_char(bytes) <==> fits(bytes) && bytes.len() < width(bytes[0]),
{
    if begins_char(bytes) {
        let c = choose|c: char| #[trigger] is_beginning(bytes, encode_scalar(c as u32));
        let encoding = encode_scalar(c as u32);
        lemma_encoding_fits(c);
        assert forall|i: int| 0 <= i < bytes.len() implies bytes[i] == encoding[i] by {
            assert(encoding.take(bytes.len() as int)[i] == bytes[i]);
        }
    }
    if fits(bytes) && bytes.len() < width(bytes[0]) {
        let first = bytes[0];
        let second: u8 = if bytes.len() > 1 {
            bytes[1]
        } else if first == 0xe0 {
            0xa0
        } else if first == 0xf0 {
            0x90
        } else {
            0x80
        };
        let third: u8 = if bytes.len() > 2 {
            bytes[2]
        } else {
            0x80
        };
        let full = seq![first, second, third, 0x80u8].take(width(first));
        lemma_fits_encodes(full);
        let c = decode_first_scalar(full) as char;
        assert(full.take(bytes.len() as int) =~= bytes);
        assert(is_beginning(bytes, encode_scalar(c as u32)));
    }
}

/// Makes a chunk of the character with the given scalar value.
fn to_scalar(bytes: &[u8], i: usize, scalar: u32, len: usize) -> (chunk: Chunk)
    requires
        i < bytes@.len(),
        valid_first_scalar(bytes@.skip(i as int)),
        scalar == decode_first_scalar(bytes@.skip(i as int)),
        len == length_of_first_scalar(bytes@.skip(i as int)),
    ensures
        chunk == first_chunk(bytes@.skip(i as int)),
        chunk == Chunk::Scalar(len, scalar as char),
{
    proof {
        lemma_valid_first_scalar(bytes@.skip(i as int));
    }
    match char::from_u32(scalar) {
        Some(c) => Chunk::Scalar(len, c),
        None => Chunk::Invalid(1),
    }
}

/// Finds what the bytes from `i` on begin with.
#[verifier::rlimit(40)]
fn find_chunk(bytes: &[u8], i: usize) -> (chunk: Chunk)
    requires
        i < bytes@.len(),
    ensures
        chunk == first_chunk(bytes@.skip(i as int)),
        match chunk {
            Chunk::Scalar(len, _) => 0 < len <= bytes@.len() - i,
            Chunk::Invalid(len) => 0 < len <= bytes@.len() - i,
            Chunk::Incomplete => true,
        },
{
    let ghost rest = bytes@.skip(i as int);
    let len: usize = bytes.len() - i;
    let a: u8 = bytes[i];
    proof {
        lemma_valid_first_scalar(rest);
        lemma_begins_char(rest);
        if len >= 2 {
            lemma_begins_char(rest.take(2));
        }
        if len >= 3 {
            lemma_begins_char(rest.take(3));
        }
    }
    let needed: usize = match a {
        0..=0x7f => 1,
        0xc2..=0xdf => 2,
        0xe0..=0xef => 3,
        0xf0..=0xf4 => 4,
        _ => return Chunk::Invalid(1),
    };
    if needed == 1 {
        return to_scalar(bytes, i, (a & 0x7f) as u32, 1);
    }
    if len == 1 {
        return Chunk::Incomplete;
    }
    let b: u8 = bytes[i + 1];
    let (low, high): (u8, u8) = match a {
        0xe0 => (0xa0, 0xbf),
        0xed => (0x80, 0x9f),
        0xf0 => (0x90, 0xbf),
        0xf4 => (0x80, 0x8f),
        _ => (0x80, 0xbf),
    };
    if b < low || high < b {
        return Chunk::Invalid(1);
    }
    if needed == 2 {
        return to_scalar(bytes, i, ((a & 0x1f) as u32) << 6 | (b & 0x3f) as u32, 2);
    }
    if len == 2 {
        return Chunk::Incomplete;
    }
    let c: u8 = bytes[i + 2];
    if c < 0x80 || 0xbf < c {
        return Chunk::Invalid(2);
    }
    if needed == 3 {
        let code: u32 = ((a & 0x0f) as u32) << 12 | ((b & 0x3f) as u32) << 6 | (c & 0x3f) as u32;
        return to_scalar(bytes, i, code, 3);
    }
    if len == 3 {
        return Chunk::Incomplete;
    }
    let d: u8 = bytes[i + 3];
    if d < 0x80 || 0xbf < d {
        return Chunk::Invalid(3);
    }
    let code: u32 = ((a & 0x07) as u32) << 18 | ((b & 0x3f) as u32) << 12 | ((c & 0x3f) as u32) << 6
        | (d & 0x3f) as u32;
    to_scalar(bytes, i, code, 4)
}


/// The text that the bytes are, with a replacement for each invalid sequence and
/// without an incomplete character at the end.
pub open spec fn decoded(bytes: Seq<u8>) -> Seq<char>
    decreases bytes.len(),
{
    if bytes.len() == 0 {
        seq![]
    } else {
        match first_chunk(bytes) {
            Chunk::Scalar(len, c) if 0 < len <= bytes.len() => seq![c] + decoded(
                bytes.skip(len as int),
            ),
            Chunk::Invalid(len) if 0 < len <= bytes.len() => seq![REPLACEMENT] + decoded(
                bytes.skip(len as int),
            ),
            _ => seq![],
        }
    }
}

/// The incomplete character at the end of the bytes.
pub open spec fn pending(bytes: Seq<u8>) -> Seq<u8>
    decreases bytes.len(),
{
    if bytes.len() == 0 {
        seq![]
    } else {
        match first_chunk(bytes) {
            Chunk::Scalar(len, _) if 0 < len <= bytes.len() => pending(bytes.skip(len as int)),
            Chunk::Invalid(len) if 0 < len <= bytes.len() => pending(bytes.skip(len as int)),
            _ => bytes,
        }
    }
}

/// Decodes output that arrives in pieces as UTF-8.
#[derive(Debug)]
pub struct Utf8Merger {
    /// The bytes of a character that isn't complete yet.
    pub incomplete_utf8_buffer: Vec<u8>,
}

impl View for Utf8Merger {
    type V = Seq<u8>;

    open spec fn view(&self) -> Seq<u8> {
        self.incomplete_utf8_buffer@
    }
}

impl Utf8Merger {
    /// Creates a merger that has seen no output yet.
    pub fn new() -> (merger: Self)
        ensures
            merger@ == Seq::<u8>::empty(),
    {
        Utf8Merger { incomplete_utf8_buffer: Vec::new() }
    }

    /// Decodes the next piece of output, with normalized line endings. Invalid
    /// sequences are replaced; an incomplete character at the end is saved for
    /// later.
    #[verifier::rlimit(40)]
    pub fn process_utf8(&mut self, buff: &[u8]) -> (text: String)
        ensures
            text@ == decoded(old(self)@ + normalized(buff@)),
            final(self)@ == pending(old(self)@ + normalized(buff@)),
    {
        let mut buffer: Vec<u8> = Vec::new();
        buffer.append(&mut self.incomplete_utf8_buffer);
        assert(buffer@ =~= old(self)@);
        push_normalized(&mut buffer, buff);
        let ghost bytes = buffer@;
        let mut text = String::new();
        let mut i: usize = 0;
        assert(bytes.skip(0) =~= bytes);
        assert(text@ + decoded(bytes) =~= decoded(bytes));
        while i < buffer.len()
            invariant
                0 <= i <= buffer@.len(),
                bytes == buffer@,
                bytes == old(self)@ + normalized(buff@),
                text@ + decoded(bytes.skip(i as int)) == decoded(bytes),
                pending(bytes.skip(i as int)) == pending(bytes),
                self@ == Seq::<u8>::empty(),
            decreases buffer@.len() - i,
        {
            let ghost rest = bytes.skip(i as int);
            match find_chunk(&buffer, i) {
                Chunk::Scalar(len, c) => {
                    assert(rest.skip(len as int) =~= bytes.skip(i + len));
                    assert(text@.push(c) + decoded(bytes.skip(i + len)) =~= text@ + decoded(rest));
                    text.push(c);
                    i += len;
                },
                Chunk::Invalid(len) => {
                    assert(rest.skip(len as int) =~= bytes.skip(i + len));
                    assert(text@.push(REPLACEMENT) + decoded(bytes.skip(i + len)) =~= text@
                        + decoded(rest));
                    text.push(REPLACEMENT);
                    i += len;
                },
                Chunk::Incomplete => {
                    // Split it off, save it for later.
                    self.incomplete_utf8_buffer = buffer.split_off(i);
                    assert(text@ + decoded(rest) =~= text@);
                    return text;
                },
            }
        }
        assert(text@ + decoded(bytes.skip(i as int)) =~= text@);
        text
    }
}

/// What is known of the beginning of a sequence of bytes doesn't change when more
/// bytes follow, unless it is an incomplete character.
pub proof fn lemma_chunk_extends(bytes: Seq<u8>, more: Seq<u8>)
    requires
        bytes.len() > 0,
        first_chunk(bytes) !is Incomplete,
    ensures
        first_chunk(bytes + more) == first_chunk(bytes),
        match first_chunk(bytes) {
            Chunk::Scalar(len, _) => 0 < len <= bytes.len(),
            Chunk::Invalid(len) => 0 < len <= bytes.len(),
            Chunk::Incomplete => true,
        },
{
    let all = bytes + more;
    lemma_valid_first_scalar(bytes);
    lemma_valid_first_scalar(all);
    lemma_begins_char(bytes);
    lemma_begins_char(all);
    assert(width(bytes[0]) <= bytes.len() ==> all.take(width(bytes[0])) =~= bytes.take(
        width(bytes[0]),
    ));
    if bytes.len() >= 2 {
        assert(all.take(2) =~= bytes.take(2));
        lemma_begins_char(all.take(2));
    } else if all.len() >= 2 {
        lemma_begins_char(all.take(2));
    }
    if bytes.len() >= 3 {
        assert(all.take(3) =~= bytes.take(3));
        lemma_begins_char(all.take(3));
    } else if all.len() >= 3 {
        lemma_begins_char(all.take(3));
    }
}

/// Decoding bytes in two pieces, with what is left of the first one put before
/// the second one, is the same as decoding them at once.
pub proof fn law_pieces_decode_alike(first: Seq<u8>, second: Seq<u8>)
    ensures
        decoded(first + second) == decoded(first) + decoded(pending(first) + second),
        pending(first + second) == pending(pending(first) + second),
    decreases first.len(),
{
    if first.len() == 0 {
        assert(first + second =~= second);
        assert(seq![] + second =~= second);
        assert(seq![] + decoded(second) =~= decoded(second));
    } else if first_chunk(first) is Incomplete {
        assert(seq![] + decoded(first + second) =~= decoded(first + second));
    } else {
        lemma_chunk_extends(first, second);
        let (len, c) = match first_chunk(first) {
            Chunk::Scalar(len, c) => (len, c),
            Chunk::Invalid(len) => (len, REPLACEMENT),
            Chunk::Incomplete => (0, REPLACEMENT),
        };
        let rest = first.skip(len as int);
        law_pieces_decode_alike(rest, second);
        assert((first + second).skip(len as int) =~= rest + second);
        assert(seq![c] + (decoded(rest) + decoded(pending(rest) + second)) =~= seq![c] + decoded(
            rest,
        ) + decoded(pending(rest) + second));
    }
}

/// How the output is cut into pieces doesn't matter, as long as no carriage
/// return and its line feed end up in different pieces.
pub proof fn law_output_may_be_cut_anywhere(before: Seq<u8>, first: Seq<u8>, second: Seq<u8>)
    requires
        !(ends_with_cr(first) && second.len() > 0 && second[0] == LF),
    ensures
        decoded(before + normalized(first + second)) == decoded(before + normalized(first))
            + decoded(pending(before + normalized(first)) + normalized(second)),
        pending(before + normalized(first + second)) == pending(
            pending(before + normalized(first)) + normalized(second),
        ),
{
    law_pieces_normalize_alike(first, second);
    assert(before + (normalized(first) + normalized(second)) =~= before + normalized(first)
        + normalized(second));
    law_pieces_decode_alike(before + normalized(first), normalized(second));
}

/// Valid UTF-8 is decoded to the text it encodes, with nothing left over.
pub proof fn law_valid_utf8_is_decoded(bytes: Seq<u8>)
    requires
        valid_utf8(bytes),
    ensures
        decoded(bytes) == decode_utf8(bytes),
        pending(bytes) == Seq::<u8>::empty(),
    decreases bytes.len(),
{
    if bytes.len() > 0 {
        lemma_valid_first_scalar(bytes);
        assert(pop_first_scalar(bytes) =~= bytes.skip(length_of_first_scalar(bytes)));
        law_valid_utf8_is_decoded(pop_first_scalar(bytes));
    }
}

/// At most three bytes are left over, and they are the beginning of a character.
pub proof fn law_rest_is_incomplete_character(bytes: Seq<u8>)
    ensures
        pending(bytes).len() <= 3,
        pending(bytes).len() > 0 ==> begins_char(pending(bytes)),
    decreases bytes.len(),
{
    if bytes.len() > 0 {
        if first_chunk(bytes) is Incomplete {
            lemma_begins_char(bytes);
        } else {
            lemma_chunk_extends(bytes, seq![]);
            let len = match first_chunk(bytes) {
                Chunk::Scalar(len, _) => len,
                Chunk::Invalid(len) => len,
                Chunk::Incomplete => 0,
            };
            law_rest_is_incomplete_character(bytes.skip(len as int));
        }
    }
}

} // verus!
