use vstd::prelude::*;

verus! {

/// The lines that `textwrap::wrap` breaks a text into at a width, with its
/// default options.
pub uninterp spec fn wrapped(text: Seq<char>, width: nat) -> Seq<Seq<char>>;

/// What a list of strings holds, as sequences of characters.
pub open spec fn texts(lines: Seq<String>) -> Seq<Seq<char>> {
    Seq::new(lines.len(), |i: int| lines[i]@)
}

/// Calls `textwrap::wrap` with a width in place of options, so with its
/// default options, and hands the lines out as strings of their own. The
/// lines depend on the text and the width alone; nothing more is claimed of
/// them, and in particular not that each is at most `width` cells wide.
#[verifier::external_body]
pub(crate) fn wrap(text: &str, width: usize) -> (lines: Vec<String>)
    ensures
        texts(lines@) == wrapped(text@, width as nat),
{
    textwrap::wrap(text, width).into_iter().map(|line| line.into_owned()).collect()
}

} // verus!
