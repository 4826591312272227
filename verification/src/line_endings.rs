//! Line endings in the serial output.
use vstd::prelude::*;

verus! {

/// A carriage return.
pub const CR: u8 = 0x0d;

/// A line feed.
pub const LF: u8 = 0x0a;

/// Whether the bytes end with a carriage return.
pub open spec fn ends_with_cr(bytes: Seq<u8>) -> bool {
    bytes.len() > 0 && bytes.last() == CR
}

/// The bytes with a carriage return before each line feed.
pub open spec fn normalized(bytes: Seq<u8>) -> Seq<u8>
    decreases bytes.len(),
{
    if bytes.len() == 0 {
        seq![]
    } else {
        let rest = normalized(bytes.drop_last());
        if bytes.last() == LF && !ends_with_cr(bytes.drop_last()) {
            rest + seq![CR, LF]
        } else {
            rest.push(bytes.last())
        }
    }
}

/// Appends the bytes with a carriage return before each line feed.
pub fn push_normalized(out: &mut Vec<u8>, bytes: &[u8])
    ensures
        final(out)@ == old(out)@ + normalized(bytes@),
{
    let mut after_cr = false;
    let mut i: usize = 0;
    assert(bytes@.take(0) =~= seq![]);
    assert(out@ + normalized(seq![]) =~= out@);
    while i < bytes.len()
        invariant
            0 <= i <= bytes@.len(),
            after_cr == ends_with_cr(bytes@.take(i as int)),
            out@ == old(out)@ + normalized(bytes@.take(i as int)),
        decreases bytes@.len() - i,
    {
        let byte = bytes[i];
        assert(bytes@.take(i + 1).drop_last() =~= bytes@.take(i as int));
        let ghost before = normalized(bytes@.take(i as int));
        if byte == LF && !after_cr {
            out.push(CR);
            out.push(LF);
            assert(out@ =~= old(out)@ + (before + seq![CR, LF]));
        } else {
            out.push(byte);
            assert(out@ =~= old(out)@ + before.push(byte));
        }
        after_cr = byte == CR;
        i += 1;
    }
    assert(bytes@.take(bytes@.len() as int) =~= bytes@);
}

/// Normalizing output piece by piece is the same as normalizing it at once,
/// unless a carriage return and its line feed end up in different pieces.
pub proof fn law_pieces_normalize_alike(first: Seq<u8>, second: Seq<u8>)
    requires
        !(ends_with_cr(first) && second.len() > 0 && second[0] == LF),
    ensures
        normalized(first + second) == normalized(first) + normalized(second),
    decreases second.len(),
{
    if second.len() == 0 {
        assert(first + second =~= first);
        assert(normalized(first) + normalized(second) =~= normalized(first));
    } else {
        let rest = second.drop_last();
        assert((first + second).drop_last() =~= first + rest);
        law_pieces_normalize_alike(first, rest);
        if rest.len() == 0 {
            assert(first + rest =~= first);
        } else {
            assert((first + rest).last() == rest.last());
        }
        assert(normalized(first + second) =~= normalized(first) + normalized(second));
    }
}

/// Normalizing output that is normalized already changes nothing.
pub proof fn law_normalizing_twice_changes_nothing(bytes: Seq<u8>)
    ensures
        normalized(normalized(bytes)) == normalized(bytes),
        ends_with_cr(normalized(bytes)) == ends_with_cr(bytes),
    decreases bytes.len(),
{
    if bytes.len() > 0 {
        let rest = bytes.drop_last();
        let out = normalized(bytes);
        law_normalizing_twice_changes_nothing(rest);
        if bytes.last() == LF && !ends_with_cr(rest) {
            assert(out.drop_last() =~= normalized(rest).push(CR));
            assert(out.drop_last().drop_last() =~= normalized(rest));
            assert(normalized(out.drop_last()) =~= normalized(rest).push(CR));
            assert(normalized(out) =~= out);
        } else {
            assert(out.drop_last() =~= normalized(rest));
        }
    }
}

} // verus!
