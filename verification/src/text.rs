use vstd::prelude::*;

use crate::width::{display_width, lemma_width_concat, spaces};

verus! {

/// `String::push` appends one character.
pub assume_specification[ String::push ](text: &mut String, c: char)
    ensures
        final(text)@ == old(text)@.push(c),
;

/// Appends `n` spaces to `out`.
pub(crate) fn pad(out: &mut String, n: usize)
    ensures
        final(out)@ == old(out)@ + spaces(n as nat),
{
    let mut i: usize = 0;
    while i < n
        invariant
            i <= n,
            out@ == old(out)@ + spaces(i as nat),
        decreases n - i,
    {
        out.push(' ');
        i = i + 1;
        assert(out@ == old(out)@ + spaces(i as nat));
    }
}

/// The pieces of a text between its spaces. Every space separates two
/// pieces, so a text with `n` spaces has `n + 1` pieces, some of which may be
/// empty.
pub open spec fn words(text: Seq<char>) -> Seq<Seq<char>>
    decreases text.len(),
{
    if text.len() == 0 {
        seq![Seq::empty()]
    } else {
        let front = words(text.drop_last());
        if text.last() == ' ' {
            front.push(Seq::empty())
        } else {
            front.drop_last().push(front.last().push(text.last()))
        }
    }
}

/// The number of spaces in a text.
pub open spec fn space_count(text: Seq<char>) -> nat
    decreases text.len(),
{
    if text.len() == 0 {
        0
    } else if text.last() == ' ' {
        space_count(text.drop_last()) + 1
    } else {
        space_count(text.drop_last())
    }
}

/// A text has one piece more than it has spaces.
pub proof fn lemma_words_len(text: Seq<char>)
    ensures
        words(text).len() == space_count(text) + 1,
    decreases text.len(),
{
    if text.len() > 0 {
        lemma_words_len(text.drop_last());
    }
}

/// No piece of a text holds a space.
pub proof fn lemma_words_without_space(text: Seq<char>, k: int)
    requires
        0 <= k < words(text).len(),
    ensures
        space_count(words(text)[k]) == 0,
    decreases text.len(),
{
    if text.len() == 0 {
        assert(space_count(Seq::<char>::empty()) == 0);
    } else {
        let front = words(text.drop_last());
        lemma_words_len(text.drop_last());
        if k < front.len() - 1 {
            lemma_words_without_space(text.drop_last(), k);
        } else if text.last() == ' ' {
            if k == front.len() - 1 {
                lemma_words_without_space(text.drop_last(), k);
            } else {
                assert(space_count(Seq::<char>::empty()) == 0);
            }
        } else {
            lemma_words_without_space(text.drop_last(), k);
            let grown = front.last().push(text.last());
            assert(grown.drop_last() == front.last());
        }
    }
}

/// Every space is one cell wide, so a text is at least as wide as it has spaces.
pub proof fn lemma_space_count_le_width(text: Seq<char>)
    ensures
        space_count(text) <= display_width(text),
    decreases text.len(),
{
    if text.len() > 0 {
        lemma_space_count_le_width(text.drop_last());
    }
}

/// Counts the spaces of a text.
pub(crate) fn count_spaces(text: &str) -> (n: usize)
    requires
        display_width(text@) <= usize::MAX,
    ensures
        n == space_count(text@),
{
    let mut n: usize = 0;
    for c in it: text.chars()
        invariant
            it.seq() == text@,
            n == space_count(text@.take(it.index())),
            display_width(text@) <= usize::MAX,
    {
        let ghost i = it.index();
        proof {
            assert(text@.take(i + 1).drop_last() == text@.take(i));
            assert(text@ == text@.take(i + 1) + text@.skip(i + 1));
            lemma_width_concat(text@.take(i + 1), text@.skip(i + 1));
            lemma_space_count_le_width(text@.take(i + 1));
        }
        if c == ' ' {
            n = n + 1;
        }
    }
    assert(text@.take(text@.len() as int) == text@);
    n
}

/// A text without a space is one piece.
pub proof fn lemma_words_of_word(word: Seq<char>)
    requires
        space_count(word) == 0,
    ensures
        words(word) == seq![word],
    decreases word.len(),
{
    if word.len() == 0 {
        assert(word =~= Seq::<char>::empty());
        assert(words(word) =~= seq![word]);
    } else {
        lemma_words_of_word(word.drop_last());
        let front = words(word.drop_last());
        assert(front.drop_last().push(front.last().push(word.last())) =~= seq![word]) by {
            assert(word.drop_last().push(word.last()) == word);
        }
    }
}

/// A text without a space, put behind a text and a space, is one more piece.
pub proof fn lemma_words_push_word(text: Seq<char>, word: Seq<char>)
    requires
        space_count(word) == 0,
    ensures
        words(text + seq![' '] + word) == words(text).push(word),
    decreases word.len(),
{
    let spaced = text + seq![' '];
    if word.len() == 0 {
        assert(spaced + word == spaced);
        assert(spaced.drop_last() == text);
        assert(word == Seq::<char>::empty());
    } else {
        lemma_words_push_word(text, word.drop_last());
        assert((spaced + word).drop_last() == spaced + word.drop_last());
        let front = words(text).push(word.drop_last());
        assert(front.drop_last() == words(text));
        assert(word.drop_last().push(word.last()) == word);
    }
}

/// The character that writes a digit.
pub open spec fn digit_char(digit: nat) -> char {
    if digit == 0 {
        '0'
    } else if digit == 1 {
        '1'
    } else if digit == 2 {
        '2'
    } else if digit == 3 {
        '3'
    } else if digit == 4 {
        '4'
    } else if digit == 5 {
        '5'
    } else if digit == 6 {
        '6'
    } else if digit == 7 {
        '7'
    } else if digit == 8 {
        '8'
    } else {
        '9'
    }
}

/// A number written in base ten, without leading zeros.
pub open spec fn decimal_digits(n: nat) -> Seq<char>
    decreases n,
{
    if n < 10 {
        seq![digit_char(n)]
    } else {
        decimal_digits(n / 10).push(digit_char(n % 10))
    }
}

/// Writes a digit.
fn digit_of(digit: usize) -> (c: char)
    requires
        digit < 10,
    ensures
        c == digit_char(digit as nat),
{
    if digit == 0 {
        '0'
    } else if digit == 1 {
        '1'
    } else if digit == 2 {
        '2'
    } else if digit == 3 {
        '3'
    } else if digit == 4 {
        '4'
    } else if digit == 5 {
        '5'
    } else if digit == 6 {
        '6'
    } else if digit == 7 {
        '7'
    } else if digit == 8 {
        '8'
    } else {
        '9'
    }
}

/// Appends a number in base ten to `out`.
pub(crate) fn push_decimal(out: &mut String, n: usize)
    ensures
        final(out)@ == old(out)@ + decimal_digits(n as nat),
    decreases n,
{
    if n >= 10 {
        push_decimal(out, n / 10);
    }
    out.push(digit_of(n % 10));
    assert(out@ == old(out)@ + decimal_digits(n as nat)) by {
        if n >= 10 {
            assert(out@ == (old(out)@ + decimal_digits((n / 10) as nat)).push(
                digit_char((n % 10) as nat),
            ));
        }
    }
}

} // verus!
