use vstd::prelude::*;

use crate::text::{count_spaces, lemma_words_len, pad, space_count, words};
use crate::utils::{
    as_nats, lemma_breakpoint_identity, lemma_share_range, lemma_shares_sum, shares, split_evenly,
    sum,
};
use crate::width::{display_width, lemma_width_concat, lemma_width_spaces, measure, spaces};
use crate::wrap::{texts, wrap, wrapped};
use crate::Alignment;

verus! {

/// The widths of some pieces of text added up.
pub open spec fn words_width(pieces: Seq<Seq<char>>) -> nat
    decreases pieces.len(),
{
    if pieces.len() == 0 {
        0
    } else {
        words_width(pieces.drop_last()) + display_width(pieces.last())
    }
}

/// The pieces put together again with `gaps[k]` spaces between piece `k` and
/// the next.
pub open spec fn spread(pieces: Seq<Seq<char>>, gaps: Seq<nat>) -> Seq<char>
    decreases pieces.len(),
{
    if pieces.len() == 0 {
        Seq::empty()
    } else if pieces.len() == 1 {
        pieces[0]
    } else {
        spread(pieces.drop_last(), gaps) + spaces(gaps[pieces.len() - 2]) + pieces.last()
    }
}

/// A line stretched by `remaining` cells. A line without a space cannot be
/// stretched and is padded at its end. In any other line the spaces that
/// are there and the `remaining` ones are divided among the gaps between the
/// words, as evenly as whole numbers allow.
pub open spec fn justified(line: Seq<char>, remaining: nat) -> Seq<char> {
    let gaps = space_count(line);
    if gaps == 0 {
        line + spaces(remaining)
    } else {
        spread(words(line), shares(gaps + remaining, gaps))
    }
}

/// A line brought to `width` cells. Where the line is wider than that, there
/// is nothing to remain and the line is left as it is.
pub open spec fn aligned_line(line: Seq<char>, width: nat, alignment: Alignment, last: bool) -> Seq<
    char,
> {
    let remaining = if display_width(line) <= width {
        (width - display_width(line)) as nat
    } else {
        0
    };
    match alignment {
        Alignment::LEFT => line + spaces(remaining),
        Alignment::RIGHT => spaces(remaining) + line,
        Alignment::CENTER => spaces(remaining / 2) + line + spaces((remaining - remaining / 2) as nat),
        Alignment::JUSTIFY => if last {
            line + spaces(remaining)
        } else {
            justified(line, remaining)
        },
    }
}

/// The gaps of a justified line: each is at least one space wide, no two
/// differ by more than one space, and together they hold the spaces that the
/// line had and the cells that remained.
pub proof fn lemma_justified_gaps(gaps: nat, remaining: nat)
    requires
        gaps > 0,
    ensures
        forall|k: int| 0 <= k < gaps ==> #[trigger] shares(gaps + remaining, gaps)[k] >= 1,
        forall|i: int, j: int|
            0 <= i < gaps && 0 <= j < gaps ==> #[trigger] shares(gaps + remaining, gaps)[i]
                <= #[trigger] shares(gaps + remaining, gaps)[j] + 1,
        sum(shares(gaps + remaining, gaps)) == gaps + remaining,
{
    let total = gaps + remaining;
    assert(total / gaps >= 1) by (nonlinear_arith)
        requires
            total >= gaps,
            gaps > 0,
    ;
    assert forall|k: int| 0 <= k < gaps implies #[trigger] shares(total, gaps)[k] >= 1 by {
        lemma_share_range(total, gaps, k as nat);
    }
    assert forall|i: int, j: int| 0 <= i < gaps && 0 <= j < gaps implies #[trigger] shares(
        total,
        gaps,
    )[i] <= #[trigger] shares(total, gaps)[j] + 1 by {
        lemma_share_range(total, gaps, i as nat);
        lemma_share_range(total, gaps, j as nat);
    }
    lemma_shares_sum(total, gaps);
}

/// A line is as wide as its words and its spaces together.
pub proof fn lemma_width_by_words(line: Seq<char>)
    ensures
        display_width(line) == words_width(words(line)) + space_count(line),
    decreases line.len(),
{
    if line.len() == 0 {
        assert(words(line).drop_last() == Seq::<Seq<char>>::empty());
        assert(words_width(words(line).drop_last()) == 0);
        assert(words(line).last() == Seq::<char>::empty());
    } else {
        let front = words(line.drop_last());
        lemma_width_by_words(line.drop_last());
        lemma_words_len(line.drop_last());
        if line.last() == ' ' {
            let pieces = front.push(Seq::empty());
            assert(pieces.drop_last() == front);
            assert(pieces.last() == Seq::<char>::empty());
            assert(words_width(pieces) == words_width(front));
        } else {
            let grown = front.last().push(line.last());
            let pieces = front.drop_last().push(grown);
            assert(pieces.drop_last() == front.drop_last());
            assert(pieces.last() == grown);
            assert(grown.drop_last() == front.last());
            assert(display_width(grown) == display_width(front.last()) + crate::width::char_width(
                line.last(),
            ));
            assert(words_width(pieces) == words_width(front.drop_last()) + display_width(grown));
            assert(words_width(front) == words_width(front.drop_last()) + display_width(
                front.last(),
            ));
        }
    }
}

/// Spread pieces are as wide as the pieces and the gaps between them.
pub proof fn lemma_spread_width(pieces: Seq<Seq<char>>, gaps: Seq<nat>)
    requires
        pieces.len() >= 1,
        gaps.len() >= pieces.len() - 1,
    ensures
        display_width(spread(pieces, gaps)) == words_width(pieces) + sum(
            gaps.take(pieces.len() - 1),
        ),
    decreases pieces.len(),
{
    if pieces.len() == 1 {
        assert(pieces.drop_last() == Seq::<Seq<char>>::empty());
        assert(words_width(pieces.drop_last()) == 0);
        assert(gaps.take(0) == Seq::<nat>::empty());
    } else {
        let front = pieces.drop_last();
        let gap = gaps[pieces.len() - 2];
        lemma_spread_width(front, gaps);
        lemma_width_concat(spread(front, gaps) + spaces(gap), pieces.last());
        lemma_width_concat(spread(front, gaps), spaces(gap));
        lemma_width_spaces(gap);
        assert(gaps.take(pieces.len() - 1).drop_last() == gaps.take(front.len() - 1));
    }
}

/// A justified line is wider than the line by what remained.
pub proof fn lemma_justified_width(line: Seq<char>, remaining: nat)
    ensures
        display_width(justified(line, remaining)) == display_width(line) + remaining,
{
    let gaps = space_count(line);
    if gaps == 0 {
        lemma_width_concat(line, spaces(remaining));
        lemma_width_spaces(remaining);
    } else {
        let amounts = shares(gaps + remaining, gaps);
        lemma_words_len(line);
        lemma_spread_width(words(line), amounts);
        lemma_shares_sum(gaps + remaining, gaps);
        assert(amounts.take(gaps as int) == amounts);
        lemma_width_by_words(line);
    }
}

/// An aligned line is exactly as wide as asked, in every mode and whether it
/// is the last line or not, unless the line was too wide to begin with.
pub proof fn lemma_aligned_width(line: Seq<char>, width: nat, alignment: Alignment, last: bool)
    requires
        display_width(line) <= width,
    ensures
        display_width(aligned_line(line, width, alignment, last)) == width,
{
    let remaining = (width - display_width(line)) as nat;
    let before = remaining / 2;
    let after = (remaining - before) as nat;
    lemma_width_spaces(remaining);
    lemma_width_spaces(before);
    lemma_width_spaces(after);
    lemma_width_concat(line, spaces(remaining));
    lemma_width_concat(spaces(remaining), line);
    lemma_width_concat(spaces(before), line);
    lemma_width_concat(spaces(before) + line, spaces(after));
    lemma_justified_width(line, remaining);
}

/// A centred line has half of what remains in front of it, rounded down, and
/// the rest behind it.
pub proof fn lemma_centered_padding(line: Seq<char>, width: nat, last: bool)
    requires
        display_width(line) <= width,
    ensures
        ({
            let remaining = (width - display_width(line)) as nat;
            let before = remaining / 2;
            let after = (remaining - before) as nat;
            &&& aligned_line(line, width, Alignment::CENTER, last) == spaces(before) + line
                + spaces(after)
            &&& before <= after <= before + 1
        }),
{
}

/// The last line of a justified text is not stretched: it comes out as a
/// left-aligned line does.
pub proof fn lemma_last_line_is_left_aligned(line: Seq<char>, width: nat)
    ensures
        aligned_line(line, width, Alignment::JUSTIFY, true) == aligned_line(
            line,
            width,
            Alignment::LEFT,
            true,
        ),
{
}

/// The spaces of two texts put together.
proof fn lemma_space_count_concat(a: Seq<char>, b: Seq<char>)
    ensures
        space_count(a + b) == space_count(a) + space_count(b),
    decreases b.len(),
{
    if b.len() == 0 {
        assert(a + b == a);
    } else {
        assert((a + b).drop_last() == a + b.drop_last());
        lemma_space_count_concat(a, b.drop_last());
    }
}

/// One more character at the end of a text, as `spread` sees it.
proof fn lemma_spread_step(text: Seq<char>, gaps: Seq<nat>)
    requires
        text.len() > 0,
        gaps.len() >= space_count(text),
    ensures
        spread(words(text), gaps) == if text.last() == ' ' {
            spread(words(text.drop_last()), gaps) + spaces(gaps[space_count(text) - 1])
        } else {
            spread(words(text.drop_last()), gaps).push(text.last())
        },
{
    let front = words(text.drop_last());
    lemma_words_len(text.drop_last());
    lemma_words_len(text);
    if text.last() == ' ' {
        assert(front.push(Seq::empty()).drop_last() == front);
        assert(spread(words(text), gaps) == spread(front, gaps) + spaces(
            gaps[space_count(text) - 1],
        ) + Seq::<char>::empty());
    } else {
        let grown = front.last().push(text.last());
        let pieces = front.drop_last().push(grown);
        assert(pieces.drop_last() == front.drop_last());
        if front.len() > 1 {
            let head = spread(front.drop_last(), gaps) + spaces(gaps[front.len() - 2]);
            assert(head + grown == (head + front.last()).push(text.last()));
        }
    }
}

/// The pieces of a text, put together again with one space in each gap, are
/// the text.
pub proof fn lemma_spread_single_spaces(text: Seq<char>, gaps: Seq<nat>)
    requires
        gaps.len() >= space_count(text),
        forall|k: int| 0 <= k < space_count(text) ==> gaps[k] == 1,
    ensures
        spread(words(text), gaps) == text,
    decreases text.len(),
{
    if text.len() == 0 {
        assert(text =~= Seq::<char>::empty());
    } else {
        lemma_spread_single_spaces(text.drop_last(), gaps);
        lemma_spread_step(text, gaps);
        if text.last() == ' ' {
            assert(spaces(1) =~= seq![' ']);
            assert(text.drop_last() + seq![' '] =~= text);
        } else {
            assert(text.drop_last().push(text.last()) =~= text);
        }
    }
}

/// A line with nothing remaining is justified as it stands.
pub proof fn lemma_justified_full_line(line: Seq<char>)
    ensures
        justified(line, 0) == line,
{
    let gaps = space_count(line);
    if gaps == 0 {
        assert(line + spaces(0) =~= line);
    } else {
        assert forall|k: int| 0 <= k < gaps implies shares(gaps, gaps)[k] == 1 by {
            lemma_breakpoint_identity(gaps, k as nat);
        }
        lemma_spread_single_spaces(line, shares(gaps, gaps));
    }
}

/// Stretches a line that is `remaining` cells short.
fn justify(line: &str, remaining: usize) -> (stretched: String)
    requires
        display_width(line@) + remaining <= usize::MAX,
    ensures
        stretched@ == justified(line@, remaining as nat),
{
    proof {
        crate::text::lemma_space_count_le_width(line@);
    }
    let gap_count = count_spaces(line);
    let mut out = String::new();
    if gap_count == 0 {
        out.append(line);
        pad(&mut out, remaining);
        return out;
    }
    let gaps = split_evenly(gap_count + remaining, gap_count);
    let ghost amounts = shares((gap_count + remaining) as nat, gap_count as nat);
    let mut seen: usize = 0;
    for c in it: line.chars()
        invariant
            it.seq() == line@,
            gaps@.len() == gap_count,
            gap_count == space_count(line@),
            as_nats(gaps@) == amounts,
            seen == space_count(line@.take(it.index())),
            out@ == spread(words(line@.take(it.index())), amounts),
    {
        let ghost i = it.index();
        proof {
            assert(line@.take(i + 1).drop_last() == line@.take(i));
            assert(line@.take(i + 1).last() == c);
            assert(line@ == line@.take(i + 1) + line@.skip(i + 1));
            lemma_space_count_concat(line@.take(i + 1), line@.skip(i + 1));
            lemma_spread_step(line@.take(i + 1), amounts);
        }
        if c == ' ' {
            assert(amounts[seen as int] == gaps@[seen as int] as nat);
            pad(&mut out, gaps[seen]);
            seen = seen + 1;
        } else {
            out.push(c);
        }
    }
    assert(line@.take(line@.len() as int) == line@);
    out
}

/// Brings one line to exactly `width` cells.
///
/// * `LEFT` pads the line at its end,
/// * `RIGHT` pads it at its start,
/// * `CENTER` pads both sides, the end getting the odd cell,
/// * `JUSTIFY` widens the gaps between the words, except on the last line
///   of a text, which is padded at its end.
///
/// The line must fit into `width`. Unverified code that hands over a wider
/// line is stopped by a panic.
pub fn align_line(line: &str, width: usize, alignment: Alignment, last: bool) -> (aligned: String)
    requires
        display_width(line@) <= width,
    ensures
        aligned@ == aligned_line(line@, width as nat, alignment, last),
        display_width(aligned@) == width,
        alignment == Alignment::CENTER ==> aligned@ == spaces(
            ((width - display_width(line@)) / 2) as nat,
        ) + line@ + spaces(
            (width - display_width(line@) - (width - display_width(line@)) / 2) as nat,
        ),
        alignment == Alignment::JUSTIFY && last ==> aligned@ == aligned_line(
            line@,
            width as nat,
            Alignment::LEFT,
            true,
        ),
{
    proof {
        lemma_aligned_width(line@, width as nat, alignment, last);
        lemma_centered_padding(line@, width as nat, last);
    }
    let cells = measure(line).expect("the line is too wide to measure");
    let remaining = width.checked_sub(cells).expect("the line is wider than the width");
    let mut out = String::new();
    match alignment {
        Alignment::LEFT => {
            out.append(line);
            pad(&mut out, remaining);
        },
        Alignment::RIGHT => {
            pad(&mut out, remaining);
            out.append(line);
        },
        Alignment::CENTER => {
            let before = remaining / 2;
            pad(&mut out, before);
            out.append(line);
            pad(&mut out, remaining - before);
        },
        Alignment::JUSTIFY => {
            if last {
                out.append(line);
                pad(&mut out, remaining);
            } else {
                out = justify(line, remaining);
            }
        },
    }
    out
}

/// Whether every line is at most `width` cells wide.
pub open spec fn all_fit(lines: Seq<Seq<char>>, width: nat) -> bool {
    forall|i: int| 0 <= i < lines.len() ==> display_width(#[trigger] lines[i]) <= width
}

/// The first `count` lines, each stretched or padded as a line that is not
/// the last, and each followed by a line feed.
pub open spec fn aligned_rows(
    lines: Seq<Seq<char>>,
    width: nat,
    alignment: Alignment,
    count: int,
) -> Seq<char>
    decreases count,
{
    if count <= 0 {
        Seq::empty()
    } else {
        aligned_rows(lines, width, alignment, count - 1) + aligned_line(
            lines[count - 1],
            width,
            alignment,
            false,
        ) + seq!['\n']
    }
}

/// The lines aligned and joined by line feeds, with none at the end. The
/// last line is aligned as the last line of a text.
pub open spec fn aligned_text(lines: Seq<Seq<char>>, width: nat, alignment: Alignment) -> Seq<
    char,
> {
    if lines.len() == 0 {
        Seq::empty()
    } else {
        aligned_rows(lines, width, alignment, lines.len() - 1) + aligned_line(
            lines.last(),
            width,
            alignment,
            true,
        )
    }
}

/// Tells whether every line is at most `width` cells wide.
pub fn lines_fit(lines: &Vec<String>, width: usize) -> (fit: bool)
    ensures
        fit == all_fit(texts(lines@), width as nat),
{
    for i in 0..lines.len()
        invariant
            forall|k: int| 0 <= k < i ==> display_width(#[trigger] texts(lines@)[k]) <= width,
    {
        let fits = match measure(lines[i].as_str()) {
            Some(cells) => cells <= width,
            None => false,
        };
        if !fits {
            assert(display_width(texts(lines@)[i as int]) > width);
            return false;
        }
    }
    true
}

/// Aligns lines that were wrapped to `width`, and joins them with line feeds.
///
/// Every line must fit into `width`.
pub fn align_lines(lines: &Vec<String>, width: usize, alignment: Alignment) -> (aligned: String)
    requires
        all_fit(texts(lines@), width as nat),
    ensures
        aligned@ == aligned_text(texts(lines@), width as nat, alignment),
{
    let mut out = String::new();
    let count = lines.len();
    for i in 0..count
        invariant
            count == lines.len(),
            all_fit(texts(lines@), width as nat),
            out@ == if i < count {
                aligned_rows(texts(lines@), width as nat, alignment, i as int)
            } else {
                aligned_text(texts(lines@), width as nat, alignment)
            },
    {
        let last = i == count - 1;
        assert(texts(lines@)[i as int] == lines@[i as int]@);
        let line = align_line(lines[i].as_str(), width, alignment, last);
        out.append(line.as_str());
        if !last {
            out.push('\n');
        }
    }
    out
}

/// Wraps and aligns text.
///
/// The text is wrapped to `width` first. Then each line is brought to
/// exactly `width` cells as [`align_line`] does, the last line as a last
/// line, and the lines are joined with line feeds.
///
/// The wrapping can leave a line wider than `width`: a word that cannot be
/// broken further, such as a single character two cells wide in a width of
/// one. There is no aligning such a line, and the answer is `None`.
pub fn align(text: &str, alignment: Alignment, width: usize) -> (aligned: Option<String>)
    ensures
        match aligned {
            Some(out) => all_fit(wrapped(text@, width as nat), width as nat) && out@
                == aligned_text(wrapped(text@, width as nat), width as nat, alignment),
            None => !all_fit(wrapped(text@, width as nat), width as nat),
        },
{
    let lines = wrap(text, width);
    if lines_fit(&lines, width) {
        Some(align_lines(&lines, width, alignment))
    } else {
        None
    }
}

} // verus!
