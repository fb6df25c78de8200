use vstd::prelude::*;

use crate::layout::{lemma_resolve_alike, ColWidthUnit, Column, DynCol, Layout, LayoutError, LayoutView};
use crate::text::{
    decimal_digits, digit_char, lemma_words_of_word, lemma_words_push_word, space_count, words,
};
use crate::Alignment;

verus! {

/// Why a pattern does not describe a layout.
#[derive(Debug, PartialEq, Eq)]
pub enum PatternError {
    /// A column of the pattern is not an alignment, a width and a repeating
    /// flag, in this order, or its width is too large a number.
    InvalidColumn {
        /// The column as written
        column: String,
        /// The pattern it stands in
        pattern: String,
    },
    /// A second column of the pattern has the repeating flag.
    RepeatedTwice {
        /// The column as written
        column: String,
        /// The pattern it stands in
        pattern: String,
    },
}

/// Which of the two things is wrong with a column.
pub enum Fault {
    /// It is no column, or its width is too large a number
    InvalidColumn,
    /// It is the second column with the repeating flag
    RepeatedTwice,
}

/// A pattern error with its texts as sequences.
pub struct PatternErrorView {
    /// What is wrong with the column
    pub fault: Fault,
    /// The column as written
    pub column: Seq<char>,
    /// The pattern it stands in
    pub pattern: Seq<char>,
}

impl View for PatternError {
    type V = PatternErrorView;

    open spec fn view(&self) -> PatternErrorView {
        match self {
            PatternError::InvalidColumn { column, pattern } => PatternErrorView {
                fault: Fault::InvalidColumn,
                column: column@,
                pattern: pattern@,
            },
            PatternError::RepeatedTwice { column, pattern } => PatternErrorView {
                fault: Fault::RepeatedTwice,
                column: column@,
                pattern: pattern@,
            },
        }
    }
}

impl PatternError {
    /// The error in words.
    pub fn message(&self) -> (text: String)
        ensures
            text@ == match self@.fault {
                Fault::InvalidColumn => "Invalid column ["@ + self@.column + "] in pattern ["@
                    + self@.pattern + "]"@,
                Fault::RepeatedTwice => "Only one column can be repeated"@,
            },
    {
        let mut text = String::new();
        match self {
            PatternError::InvalidColumn { column, pattern } => {
                text.append("Invalid column [");
                text.append(column.as_str());
                text.append("] in pattern [");
                text.append(pattern.as_str());
                text.append("]");
            },
            PatternError::RepeatedTwice { .. } => {
                text.append("Only one column can be repeated");
            },
        }
        text
    }
}

/// What one column of a pattern declares.
pub struct Token {
    /// The column
    pub column: DynCol,
    /// Whether it has the repeating flag
    pub repeat: bool,
}

/// Whether a character is one of the alignment marks `<`, `^`, `>`, `=`.
pub open spec fn is_alignment_mark(c: char) -> bool {
    c == '<' || c == '^' || c == '>' || c == '='
}

/// The alignment that a mark stands for.
pub open spec fn alignment_of(c: char) -> Alignment {
    if c == '^' {
        Alignment::CENTER
    } else if c == '>' {
        Alignment::RIGHT
    } else if c == '=' {
        Alignment::JUSTIFY
    } else {
        Alignment::LEFT
    }
}

/// Whether a character is one of the digits `0` to `9`.
pub open spec fn is_digit(c: char) -> bool {
    0x30 <= c as u32 && c as u32 <= 0x39
}

/// The number that a run of digits writes in base ten.
pub open spec fn decimal(digits: Seq<char>) -> nat
    decreases digits.len(),
{
    if digits.len() == 0 {
        0
    } else {
        10 * decimal(digits.drop_last()) + (digits.last() as u32 - 0x30) as nat
    }
}

/// The width that the middle part of a column declares: one fractional unit
/// where it is empty, as many fractional units as it has hyphens, or as many
/// characters as its digits say.
pub open spec fn declared_size(body: Seq<char>) -> Option<(ColWidthUnit, nat)> {
    if body.len() == 0 {
        Some((ColWidthUnit::FRACTIONAL, 1nat))
    } else if forall|i: int| 0 <= i < body.len() ==> body[i] == '-' {
        Some((ColWidthUnit::FRACTIONAL, body.len()))
    } else if forall|i: int| 0 <= i < body.len() ==> is_digit(body[i]) {
        Some((ColWidthUnit::CHARACTER, decimal(body)))
    } else {
        None
    }
}

/// The middle part of a column: what stands between the alignment mark, if
/// it starts with one, and the repeating flag `*`, if it ends with one.
pub open spec fn body_of(token: Seq<char>) -> Seq<char> {
    let rest = if token.len() > 0 && is_alignment_mark(token[0]) {
        token.skip(1)
    } else {
        token
    };
    if rest.len() > 0 && rest.last() == '*' {
        rest.drop_last()
    } else {
        rest
    }
}

/// Reads one column of a pattern: an optional alignment mark (left where
/// there is none), then a width, then an optional `*`. Anything else is no
/// column, nor is a width that no `usize` holds.
pub open spec fn lex(token: Seq<char>) -> Option<Token> {
    let marked = token.len() > 0 && is_alignment_mark(token[0]);
    let rest = if marked {
        token.skip(1)
    } else {
        token
    };
    let starred = rest.len() > 0 && rest.last() == '*';
    match declared_size(body_of(token)) {
        Some((unit, size)) => if size <= usize::MAX {
            Some(
                Token {
                    column: DynCol {
                        size: size as usize,
                        unit,
                        align: if marked {
                            alignment_of(token[0])
                        } else {
                            Alignment::LEFT
                        },
                    },
                    repeat: starred,
                },
            )
        } else {
            None
        },
        None => None,
    }
}

/// The layout after one more column of a pattern. An empty column, which is
/// what stands between two spaces in a row, changes nothing.
pub open spec fn after_column(layout: LayoutView, token: Seq<char>) -> Result<LayoutView, Fault> {
    if token.len() == 0 {
        Ok(layout)
    } else {
        match lex(token) {
            None => Err(Fault::InvalidColumn),
            Some(read) => {
                let added = layout.with_column(read.column);
                if !read.repeat {
                    Ok(added)
                } else if added.can_repeat() {
                    Ok(added.with_repeat())
                } else {
                    Err(Fault::RepeatedTwice)
                }
            },
        }
    }
}

/// The layout that a list of columns describes, read from left to right, or
/// the first column that is wrong with what is wrong with it.
pub open spec fn layout_of(tokens: Seq<Seq<char>>) -> Result<LayoutView, (Fault, Seq<char>)>
    decreases tokens.len(),
{
    if tokens.len() == 0 {
        Ok(LayoutView::blank())
    } else {
        match layout_of(tokens.drop_last()) {
            Err(refusal) => Err(refusal),
            Ok(layout) => match after_column(layout, tokens.last()) {
                Ok(next) => Ok(next),
                Err(fault) => Err((fault, tokens.last())),
            },
        }
    }
}

/// What a pattern describes: the layout of its columns, which are the
/// pieces between its spaces, or the error for the first wrong column.
pub open spec fn parse(pattern: Seq<char>) -> Result<LayoutView, PatternErrorView> {
    match layout_of(words(pattern)) {
        Ok(layout) => Ok(layout),
        Err((fault, column)) => Err(PatternErrorView { fault, column, pattern }),
    }
}

/// The pieces of a text that are closed by a space stay as they are, whatever
/// follows the text.
pub proof fn lemma_words_prefix(a: Seq<char>, b: Seq<char>)
    ensures
        words(a).len() >= 1,
        words(a + b).len() >= words(a).len(),
        words(a + b).take(words(a).len() - 1) == words(a).drop_last(),
    decreases b.len(),
{
    crate::text::lemma_words_len(a);
    if b.len() == 0 {
        assert(a + b == a);
    } else {
        assert((a + b).drop_last() == a + b.drop_last());
        lemma_words_prefix(a, b.drop_last());
        let front = words(a + b.drop_last());
        let k = words(a).len() - 1;
        if b.last() == ' ' {
            assert(front.push(Seq::empty()).take(k) == front.take(k));
        } else {
            let grown = front.last().push(b.last());
            assert(front.drop_last().push(grown).take(k) == front.take(k));
        }
    }
}

/// Once a column is wrong, the columns after it do not matter.
pub proof fn lemma_refusal_stays(tokens: Seq<Seq<char>>, k: int)
    requires
        0 <= k <= tokens.len(),
        layout_of(tokens.take(k)) is Err,
    ensures
        layout_of(tokens) == layout_of(tokens.take(k)),
    decreases tokens.len(),
{
    if k == tokens.len() {
        assert(tokens.take(k) == tokens);
    } else {
        assert(tokens.drop_last().take(k) == tokens.take(k));
        lemma_refusal_stays(tokens.drop_last(), k);
    }
}

/// A number is not smaller than the number its first digits write.
proof fn lemma_decimal_prefix(digits: Seq<char>, k: int)
    requires
        0 <= k <= digits.len(),
    ensures
        decimal(digits.take(k)) <= decimal(digits),
    decreases digits.len(),
{
    if k == digits.len() {
        assert(digits.take(k) == digits);
    } else {
        assert(digits.drop_last().take(k) == digits.take(k));
        lemma_decimal_prefix(digits.drop_last(), k);
    }
}

/// A number written in base ten is made of digits, and they write that
/// number.
pub proof fn lemma_decimal_round_trip(n: nat)
    ensures
        forall|i: int| 0 <= i < decimal_digits(n).len() ==> is_digit(#[trigger] decimal_digits(n)[i]),
        decimal(decimal_digits(n)) == n,
    decreases n,
{
    let written = decimal_digits(n);
    if n < 10 {
        assert(written.drop_last() =~= Seq::<char>::empty());
        assert(written.last() == digit_char(n));
    } else {
        lemma_decimal_round_trip(n / 10);
        assert(written.drop_last() =~= decimal_digits(n / 10));
        assert(written.last() == digit_char(n % 10));
    }
}

/// Reads the width that the part `from .. to` of a column declares.
fn read_size(token: &Vec<char>, from: usize, to: usize) -> (size: Option<(ColWidthUnit, usize)>)
    requires
        from <= to <= token.len(),
    ensures
        size == match declared_size(token@.subrange(from as int, to as int)) {
            Some((unit, size)) => if size <= usize::MAX {
                Some((unit, size as usize))
            } else {
                None
            },
            None => None,
        },
{
    let ghost body = token@.subrange(from as int, to as int);
    if from == to {
        return Some((ColWidthUnit::FRACTIONAL, 1));
    }
    if token[from] == '-' {
        assert(body[0] == '-');
        assert(!is_digit(body[0]));
        let mut k: usize = from + 1;
        while k < to
            invariant
                from < k <= to <= token.len(),
                body == token@.subrange(from as int, to as int),
                forall|i: int| 0 <= i < k - from ==> body[i] == '-',
            decreases to - k,
        {
            if token[k] != '-' {
                assert(body[k - from] != '-');
                assert(body[0] == '-' && !is_digit(body[0]));
                return None;
            }
            k = k + 1;
        }
        return Some((ColWidthUnit::FRACTIONAL, to - from));
    }
    assert(body[0] != '-');
    let mut value: usize = 0;
    let mut k: usize = from;
    while k < to
        invariant
            from <= k <= to <= token.len(),
            body == token@.subrange(from as int, to as int),
            body.len() > 0,
            body[0] != '-',
            forall|i: int| 0 <= i < k - from ==> is_digit(body[i]),
            value == decimal(body.take(k - from)),
        decreases to - k,
    {
        let c = token[k];
        let code: u32 = c as u32;
        if code < 0x30 || code > 0x39 {
            assert(!is_digit(body[k - from]));
            return None;
        }
        let digit: usize = (code - 0x30) as usize;
        proof {
            assert(body.take(k - from + 1).drop_last() == body.take(k - from));
            assert(body.take(k - from + 1).last() == c);
            lemma_decimal_prefix(body, k - from + 1);
        }
        let tens = match value.checked_mul(10) {
            Some(tens) => tens,
            None => {
                return None;
            },
        };
        value = match tens.checked_add(digit) {
            Some(sum) => sum,
            None => {
                return None;
            },
        };
        k = k + 1;
    }
    assert(body.take(body.len() as int) == body);
    Some((ColWidthUnit::CHARACTER, value))
}

/// Reads one column of a pattern.
fn read_column(token: &Vec<char>) -> (read: Option<Token>)
    ensures
        read == lex(token@),
{
    let len = token.len();
    let mut from: usize = 0;
    let mut align = Alignment::LEFT;
    if len > 0 {
        let c = token[0];
        if c == '<' || c == '^' || c == '>' || c == '=' {
            from = 1;
            align = if c == '^' {
                Alignment::CENTER
            } else if c == '>' {
                Alignment::RIGHT
            } else if c == '=' {
                Alignment::JUSTIFY
            } else {
                Alignment::LEFT
            };
        }
    }
    let repeat = len > from && token[len - 1] == '*';
    let to = if repeat {
        len - 1
    } else {
        len
    };
    proof {
        let rest = token@.skip(from as int);
        assert(body_of(token@) == token@.subrange(from as int, to as int)) by {
            if from == 0 {
                assert(token@.skip(0) == token@);
            }
            if repeat {
                assert(rest.drop_last() == token@.subrange(from as int, to as int));
            } else {
                assert(rest == token@.subrange(from as int, to as int));
            }
        }
    }
    match read_size(token, from, to) {
        Some((unit, size)) => Some(Token { column: DynCol { size, unit, align }, repeat }),
        None => None,
    }
}

/// A text with the characters of `chars`.
fn text_of(chars: &Vec<char>) -> (text: String)
    ensures
        text@ == chars@,
{
    let mut text = String::new();
    for i in 0..chars.len()
        invariant
            text@ == chars@.take(i as int),
    {
        text.push(chars[i]);
    }
    assert(chars@.take(chars@.len() as int) == chars@);
    text
}

/// The error for a wrong column.
fn refuse(fault: Fault, token: &Vec<char>, pattern: &str) -> (error: PatternError)
    ensures
        error@ == (PatternErrorView { fault, column: token@, pattern: pattern@ }),
{
    match fault {
        Fault::InvalidColumn => PatternError::InvalidColumn {
            column: text_of(token),
            pattern: String::from_str(pattern),
        },
        Fault::RepeatedTwice => PatternError::RepeatedTwice {
            column: text_of(token),
            pattern: String::from_str(pattern),
        },
    }
}

/// Adds one column of a pattern to a layout.
fn add_column(layout: Layout, token: &Vec<char>) -> (outcome: Result<Layout, Fault>)
    ensures
        match outcome {
            Ok(next) => after_column(layout@, token@) == Ok::<LayoutView, Fault>(next@),
            Err(fault) => after_column(layout@, token@) == Err::<LayoutView, Fault>(fault),
        },
{
    if token.len() == 0 {
        return Ok(layout);
    }
    match read_column(token) {
        None => Err(Fault::InvalidColumn),
        Some(read) => {
            let added = match read.column.unit {
                ColWidthUnit::FRACTIONAL => layout.fractional(read.column.size, read.column.align),
                ColWidthUnit::CHARACTER => layout.fixed(read.column.size, read.column.align),
            };
            if !read.repeat {
                Ok(added)
            } else {
                match added.try_repeat() {
                    Ok(repeating) => Ok(repeating),
                    Err(_) => Err(Fault::RepeatedTwice),
                }
            }
        },
    }
}

impl Layout {
    /// Creates a layout from a pattern.
    ///
    /// # Pattern syntax
    ///
    /// A pattern describes columns separated by spaces. Each column is made
    /// of:
    /// * an alignment: `<` for `LEFT`, `^` for `CENTER`, `>` for `RIGHT` or
    ///   `=` for `JUSTIFY`, and `LEFT` where there is none;
    /// * a width: either a number, a fixed width in characters, or one or
    ///   more hyphens `-`, as many fractional units as there are hyphens,
    ///   and 1 fractional unit where there is none;
    /// * a repeating flag `*`, which only one column can have.
    ///
    /// `^5 <-*` reads "one centred column five characters wide followed by
    /// zero, one or more columns with equal width", and gives the layout of
    /// `Layout::new().fixed(5, CENTER).fractional(1, LEFT).repeat()`.
    pub fn from_pattern(pattern: &str) -> (outcome: Result<Layout, PatternError>)
        ensures
            match outcome {
                Ok(layout) => parse(pattern@) == Ok::<LayoutView, PatternErrorView>(layout@),
                Err(error) => parse(pattern@) == Err::<LayoutView, PatternErrorView>(error@),
            },
    {
        let mut layout = Layout::new();
        let mut token: Vec<char> = Vec::new();
        assert(words(pattern@.take(0)).drop_last() == Seq::<Seq<char>>::empty());
        for c in it: pattern.chars()
            invariant
                it.seq() == pattern@,
                layout_of(words(pattern@.take(it.index())).drop_last()) == Ok::<
                    LayoutView,
                    (Fault, Seq<char>),
                >(layout@),
                token@ == words(pattern@.take(it.index())).last(),
        {
            let ghost i = it.index();
            let ghost before = words(pattern@.take(i));
            proof {
                assert(pattern@.take(i + 1).drop_last() == pattern@.take(i));
                assert(pattern@.take(i + 1).last() == c);
                assert(pattern@ == pattern@.take(i + 1) + pattern@.skip(i + 1));
                lemma_words_prefix(pattern@.take(i + 1), pattern@.skip(i + 1));
                lemma_words_prefix(pattern@.take(i), Seq::empty());
            }
            if c == ' ' {
                proof {
                    assert(before.push(Seq::empty()).drop_last() == before);
                    assert(before == before.drop_last().push(before.last()));
                    assert(before.drop_last() == before.drop_last().push(before.last()).drop_last());
                }
                match add_column(layout, &token) {
                    Ok(next) => {
                        layout = next;
                    },
                    Err(fault) => {
                        proof {
                            assert(words(pattern@).take(before.len() as int) == before);
                            lemma_refusal_stays(words(pattern@), before.len() as int);
                        }
                        return Err(refuse(fault, &token, pattern));
                    },
                }
                token = Vec::new();
            } else {
                proof {
                    let grown = before.last().push(c);
                    assert(before.drop_last().push(grown).drop_last() == before.drop_last());
                }
                token.push(c);
            }
        }
        proof {
            assert(pattern@.take(pattern@.len() as int) == pattern@);
            lemma_words_prefix(pattern@, Seq::empty());
            let all = words(pattern@);
            assert(all == all.drop_last().push(all.last()));
        }
        match add_column(layout, &token) {
            Ok(layout) => Ok(layout),
            Err(fault) => Err(refuse(fault, &token, pattern)),
        }
    }
}

/// A pattern of one column describes what the builder call for that column
/// makes of a blank layout.
pub proof fn lemma_parse_first_column(token: Seq<char>)
    requires
        space_count(token) == 0,
    ensures
        layout_of(words(token)) == match after_column(LayoutView::blank(), token) {
            Ok(layout) => Ok::<LayoutView, (Fault, Seq<char>)>(layout),
            Err(fault) => Err((fault, token)),
        },
{
    lemma_words_of_word(token);
    let tokens = seq![token];
    assert(tokens.drop_last() =~= Seq::<Seq<char>>::empty());
    assert(layout_of(tokens.drop_last()) == Ok::<LayoutView, (Fault, Seq<char>)>(
        LayoutView::blank(),
    ));
    assert(tokens.last() == token);
}

/// A pattern with one more column behind it describes what the builder call
/// for that column makes of the layout so far: reading a pattern is making
/// the builder calls that its columns spell out, from left to right.
pub proof fn lemma_parse_next_column(front: Seq<char>, token: Seq<char>)
    requires
        space_count(token) == 0,
    ensures
        layout_of(words(front + seq![' '] + token)) == match layout_of(words(front)) {
            Err(refusal) => Err::<LayoutView, (Fault, Seq<char>)>(refusal),
            Ok(layout) => match after_column(layout, token) {
                Ok(next) => Ok(next),
                Err(fault) => Err((fault, token)),
            },
        },
{
    lemma_words_push_word(front, token);
    assert(words(front).push(token).drop_last() == words(front));
}

/// A layout read from a pattern and a layout made by builder calls, both
/// holding the columns that the pattern describes, resolve alike.
pub proof fn lemma_pattern_round_trip(
    pattern: &str,
    read: Layout,
    built: Layout,
    width: usize,
    columns: usize,
    of_read: Result<Vec<Column>, LayoutError>,
    of_built: Result<Vec<Column>, LayoutError>,
)
    requires
        call_ensures(Layout::from_pattern, (pattern,), Ok::<Layout, PatternError>(read)),
        parse(pattern@) == Ok::<LayoutView, PatternErrorView>(built@),
        call_ensures(Layout::resolve, (&read, width, columns), of_read),
        call_ensures(Layout::resolve, (&built, width, columns), of_built),
    ensures
        match (of_read, of_built) {
            (Ok(list_read), Ok(list_built)) => list_read@ == list_built@,
            (Err(error_read), Err(error_built)) => error_read == error_built,
            _ => false,
        },
{
    lemma_resolve_alike(read, built, width, columns, of_read, of_built);
}

} // verus!
