use unicode_width::UnicodeWidthChar;
use vstd::prelude::*;

verus! {

/// What `unicode_width::UnicodeWidthChar::width` returns for a character.
pub uninterp spec fn unicode_cells(c: char) -> Option<usize>;

/// Whether a character is printable ASCII, U+0020 to U+007E.
pub open spec fn is_printable_ascii(c: char) -> bool {
    0x20 <= c as u32 && c as u32 <= 0x7E
}

/// The number of cells a character takes on a fixed-pitch display: one for
/// printable ASCII, and otherwise what `unicode_width` gives, a character
/// for which it gives nothing counting as zero cells wide.
pub open spec fn char_width(c: char) -> nat {
    if is_printable_ascii(c) {
        1
    } else {
        match unicode_cells(c) {
            Some(cells) => cells as nat,
            None => 0,
        }
    }
}

/// The display width of a text: the widths of its characters added up.
pub open spec fn display_width(text: Seq<char>) -> nat
    decreases text.len(),
{
    if text.len() == 0 {
        0
    } else {
        display_width(text.drop_last()) + char_width(text.last())
    }
}

/// A run of `n` spaces.
pub open spec fn spaces(n: nat) -> Seq<char> {
    Seq::new(n, |i: int| ' ')
}

/// The width of two texts put together is the sum of their widths.
pub proof fn lemma_width_concat(a: Seq<char>, b: Seq<char>)
    ensures
        display_width(a + b) == display_width(a) + display_width(b),
    decreases b.len(),
{
    if b.len() == 0 {
        assert(a + b == a);
    } else {
        assert((a + b).drop_last() == a + b.drop_last());
        lemma_width_concat(a, b.drop_last());
    }
}

/// A run of `n` spaces is `n` cells wide.
pub proof fn lemma_width_spaces(n: nat)
    ensures
        display_width(spaces(n)) == n,
    decreases n,
{
    if n > 0 {
        assert(spaces(n).drop_last() == spaces((n - 1) as nat));
        lemma_width_spaces((n - 1) as nat);
    }
}

/// Calls `unicode_width::UnicodeWidthChar::width`. Its source answers
/// `Some(1)` for every character from U+0020 to U+007E before it looks at any
/// table; the contract says that much and names the rest.
#[verifier::external_body]
fn width_of_char(c: char) -> (cells: Option<usize>)
    ensures
        cells == unicode_cells(c),
        is_printable_ascii(c) ==> cells == Some(1usize),
{
    UnicodeWidthChar::width(c)
}

/// Measures the display width of a text, as `UnicodeWidthStr::width` of
/// `unicode_width` does: character by character, a character without a
/// width of its own counting as zero cells. The answer is `None` where the
/// width does not fit the machine word.
pub fn measure(text: &str) -> (cells: Option<usize>)
    ensures
        match cells {
            Some(n) => n == display_width(text@),
            None => display_width(text@) > usize::MAX,
        },
{
    let mut total: usize = 0;
    for c in it: text.chars()
        invariant
            it.seq() == text@,
            total == display_width(text@.take(it.index())),
    {
        let ghost i = it.index();
        let cells: usize = match width_of_char(c) {
            Some(n) => n,
            None => 0,
        };
        proof {
            assert(text@.take(i + 1).drop_last() == text@.take(i));
            assert(text@.take(i + 1).last() == c);
            assert(cells == char_width(c));
        }
        match total.checked_add(cells) {
            Some(sum) => {
                total = sum;
            },
            None => {
                proof {
                    assert(text@ == text@.take(i + 1) + text@.skip(i + 1));
                    lemma_width_concat(text@.take(i + 1), text@.skip(i + 1));
                }
                return None;
            },
        }
    }
    assert(text@.take(text@.len() as int) == text@);
    Some(total)
}

} // verus!
