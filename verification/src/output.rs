//! What the monitor prints.
use vstd::prelude::*;

verus! {

/// A piece of what the monitor prints.
#[derive(Debug, PartialEq, Eq)]
pub enum Output {
    /// What the device sent.
    Plain(String),
    /// What the monitor adds to it, which is set apart by its color.
    Highlighted(String),
}

/// What an [`Output`] holds.
#[verifier::ext_equal]
pub enum OutputText {
    /// What the device sent.
    Plain(Seq<char>),
    /// What the monitor adds to it.
    Highlighted(Seq<char>),
}

impl View for Output {
    type V = OutputText;

    open spec fn view(&self) -> OutputText {
        match self {
            Output::Plain(text) => OutputText::Plain(text@),
            Output::Highlighted(text) => OutputText::Highlighted(text@),
        }
    }
}

/// What a list of pieces holds.
pub open spec fn output_texts(pieces: Seq<Output>) -> Seq<OutputText> {
    pieces.map_values(|piece: Output| piece@)
}

/// Adds a piece of output.
pub fn push_output(out: &mut Vec<Output>, piece: Output)
    ensures
        output_texts(final(out)@) == output_texts(old(out)@).push(piece@),
{
    out.push(piece);
    assert(output_texts(out@) =~= output_texts(old(out)@).push(piece@));
}

} // verus!
