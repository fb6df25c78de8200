use vstd::prelude::*;

use crate::align::{align_line, aligned_line, all_fit, lemma_aligned_width, lines_fit};
use crate::layout::{lemma_resolution_unique, resolution, Column, Layout, LayoutError, LayoutView};
use crate::utils::{invert_2d_vec, longest, spacing_needed, spacing_overhead};
use crate::width::{display_width, lemma_width_concat, lemma_width_spaces, spaces};
use crate::wrap::{texts, wrap, wrapped};
use crate::Spacing;

verus! {

/// Why texts cannot be set in columns.
#[derive(Copy, Clone, Debug, PartialEq, Eq, Structural)]
pub enum ColumnsError {
    /// There is no text, so no column.
    NoColumns,
    /// The width does not even hold the spacing between the columns.
    WidthTooSmall,
    /// The layout cannot be resolved for as many columns as there are texts.
    Layout(LayoutError),
    /// The wrapping left a line that is wider than its column.
    LineTooWide,
}

impl ColumnsError {
    /// The error in words.
    pub fn message(&self) -> (text: String)
        ensures
            text@ == match *self {
                ColumnsError::NoColumns => "There is no text to set in columns"@,
                ColumnsError::WidthTooSmall => "The width does not hold the spacing of the columns"@,
                ColumnsError::Layout(error) => error.message_text(),
                ColumnsError::LineTooWide => "A wrapped line is wider than its column"@,
            },
    {
        match self {
            ColumnsError::NoColumns => String::from_str("There is no text to set in columns"),
            ColumnsError::WidthTooSmall => String::from_str(
                "The width does not hold the spacing of the columns",
            ),
            ColumnsError::Layout(error) => error.message(),
            ColumnsError::LineTooWide => String::from_str("A wrapped line is wider than its column"),
        }
    }
}

/// What lists of strings hold, as sequences of characters.
pub open spec fn tables(lists: Seq<Vec<String>>) -> Seq<Seq<Seq<char>>> {
    Seq::new(lists.len(), |j: int| texts(lists[j]@))
}

/// The number of lines of the column that has the most.
pub open spec fn tallest(per_column: Seq<Seq<Seq<char>>>) -> nat
    decreases per_column.len(),
{
    if per_column.len() == 0 {
        0
    } else if per_column.last().len() > tallest(per_column.drop_last()) {
        per_column.last().len()
    } else {
        tallest(per_column.drop_last())
    }
}

/// The lines of the columns, grouped by row: row `r` holds line `r` of every
/// column, and an empty line for each column that has no line `r`.
pub open spec fn grid(per_column: Seq<Seq<Seq<char>>>) -> Seq<Seq<Seq<char>>> {
    Seq::new(
        tallest(per_column),
        |r: int|
            Seq::new(
                per_column.len(),
                |j: int|
                    if r < per_column[j].len() {
                        per_column[j][r]
                    } else {
                        Seq::empty()
                    },
            ),
    )
}

/// Whether every line of every column is at most as wide as its column.
pub open spec fn cells_fit(per_column: Seq<Seq<Seq<char>>>, columns: Seq<Column>) -> bool {
    forall|j: int|
        0 <= j < per_column.len() ==> all_fit(#[trigger] per_column[j], columns[j].width as nat)
}

/// What stands in front of column `j` of a row.
pub open spec fn separator(spacing: Spacing, j: int) -> Seq<char> {
    match spacing {
        Spacing::NONE => Seq::empty(),
        Spacing::BETWEEN => if j == 0 {
            Seq::empty()
        } else {
            seq![' ']
        },
        Spacing::AROUND => seq![' '],
    }
}

/// The first `count` cells of a row, each behind its separator and aligned
/// within its column.
pub open spec fn rendered_row(
    cells: Seq<Seq<char>>,
    columns: Seq<Column>,
    spacing: Spacing,
    last: bool,
    count: int,
) -> Seq<char>
    decreases count,
{
    if count <= 0 {
        Seq::empty()
    } else {
        rendered_row(cells, columns, spacing, last, count - 1) + separator(spacing, count - 1)
            + aligned_line(
            cells[count - 1],
            columns[count - 1].width as nat,
            columns[count - 1].alignment,
            last,
        )
    }
}

/// The first `count` rows, joined by line feeds. Only the last row of all is
/// aligned as a last line, and no line feed follows it.
pub open spec fn rendered(
    rows: Seq<Seq<Seq<char>>>,
    columns: Seq<Column>,
    spacing: Spacing,
    count: int,
) -> Seq<char>
    decreases count,
{
    if count <= 0 {
        Seq::empty()
    } else {
        let last = count == rows.len();
        rendered(rows, columns, spacing, count - 1) + rendered_row(
            rows[count - 1],
            columns,
            spacing,
            last,
            rows[count - 1].len() as int,
        ) + if last {
            Seq::<char>::empty()
        } else {
            seq!['\n']
        }
    }
}

/// The columns set side by side: their lines grouped by row, and the rows
/// rendered one below the other.
pub open spec fn composed(
    per_column: Seq<Seq<Seq<char>>>,
    spacing: Spacing,
    columns: Seq<Column>,
) -> Seq<char> {
    let rows = grid(per_column);
    rendered(rows, columns, spacing, rows.len() as int)
}

/// The grid has as many rows as the tallest column has lines, every row has
/// one cell for each column, and no line of any column is missing from it.
pub proof fn lemma_grid_shape(per_column: Seq<Seq<Seq<char>>>)
    ensures
        grid(per_column).len() == tallest(per_column),
        forall|j: int| 0 <= j < per_column.len() ==> (#[trigger] per_column[j]).len() <= tallest(per_column),
        per_column.len() > 0 ==> exists|j: int|
            0 <= j < per_column.len() && (#[trigger] per_column[j]).len() == tallest(per_column),
        forall|r: int|
            0 <= r < tallest(per_column) ==> (#[trigger] grid(per_column)[r]).len()
                == per_column.len(),
        forall|j: int, r: int|
            0 <= j < per_column.len() && 0 <= r < per_column[j].len() ==> #[trigger] grid(
                per_column,
            )[r][j] == per_column[j][r],
    decreases per_column.len(),
{
    if per_column.len() > 0 {
        let front = per_column.drop_last();
        lemma_grid_shape(front);
        assert forall|j: int| 0 <= j < per_column.len() implies (#[trigger] per_column[j]).len()
            <= tallest(per_column) by {
            if j < front.len() {
                assert(front[j] == per_column[j]);
            }
        }
        if per_column.last().len() > tallest(front) || front.len() == 0 {
            assert(per_column[per_column.len() - 1].len() == tallest(per_column));
        } else {
            let j = choose|j: int| 0 <= j < front.len() && (#[trigger] front[j]).len() == tallest(front);
            assert(per_column[j] == front[j]);
        }
    }
}

/// The cells that the first `count` columns of a row take, with what stands
/// in front of each.
pub open spec fn row_width(columns: Seq<Column>, spacing: Spacing, count: int) -> nat
    decreases count,
{
    if count <= 0 {
        0
    } else {
        row_width(columns, spacing, count - 1) + separator(spacing, count - 1).len()
            + columns[count - 1].width as nat
    }
}

/// A rendered row is as wide as its columns and the spaces in front of them,
/// whatever its cells hold, as long as each fits its column.
pub proof fn lemma_rendered_row_width(
    cells: Seq<Seq<char>>,
    columns: Seq<Column>,
    spacing: Spacing,
    last: bool,
    count: int,
)
    requires
        0 <= count <= cells.len(),
        count <= columns.len(),
        forall|j: int| 0 <= j < count ==> display_width(#[trigger] cells[j]) <= columns[j].width,
    ensures
        display_width(rendered_row(cells, columns, spacing, last, count)) == row_width(
            columns,
            spacing,
            count,
        ),
    decreases count,
{
    if count > 0 {
        let j = count - 1;
        let front = rendered_row(cells, columns, spacing, last, j);
        let gap = separator(spacing, j);
        let cell = aligned_line(cells[j], columns[j].width as nat, columns[j].alignment, last);
        lemma_rendered_row_width(cells, columns, spacing, last, j);
        lemma_width_concat(front + gap, cell);
        lemma_width_concat(front, gap);
        lemma_aligned_width(cells[j], columns[j].width as nat, columns[j].alignment, last);
        assert(display_width(gap) == gap.len()) by {
            lemma_width_spaces(gap.len());
            assert(gap =~= spaces(gap.len()));
        }
    }
}

/// The longest list of strings is the tallest column.
proof fn lemma_longest_is_tallest(lists: Seq<Vec<String>>)
    ensures
        longest(lists) == tallest(tables(lists)),
    decreases lists.len(),
{
    if lists.len() > 0 {
        lemma_longest_is_tallest(lists.drop_last());
        assert(tables(lists).drop_last() == tables(lists.drop_last()));
    }
}

/// Renders one row of cells.
fn render_row(out: &mut String, row: &Vec<String>, columns: &Vec<Column>, spacing: Spacing, last: bool)
    requires
        row.len() == columns.len(),
        forall|j: int| 0 <= j < row.len() ==> display_width((#[trigger] row@[j])@) <= columns[j].width,
    ensures
        final(out)@ == old(out)@ + rendered_row(
            texts(row@),
            columns@,
            spacing,
            last,
            row.len() as int,
        ),
{
    let count = row.len();
    let ghost cells = texts(row@);
    let mut j: usize = 0;
    while j < count
        invariant
            j <= count,
            count == row.len(),
            row.len() == columns.len(),
            cells == texts(row@),
            forall|j: int|
                0 <= j < row.len() ==> display_width((#[trigger] row@[j])@) <= columns[j].width,
            out@ == old(out)@ + rendered_row(cells, columns@, spacing, last, j as int),
        decreases count - j,
    {
        let ghost before = out@;
        match spacing {
            Spacing::NONE => {},
            Spacing::BETWEEN => {
                if j != 0 {
                    out.push(' ');
                }
            },
            Spacing::AROUND => {
                out.push(' ');
            },
        }
        assert(out@ == before + separator(spacing, j as int));
        let column = columns[j];
        assert(display_width(row@[j as int]@) <= column.width);
        let cell = align_line(row[j].as_str(), column.width, column.alignment, last);
        assert(cell@ == aligned_line(cells[j as int], column.width as nat, column.alignment, last));
        out.append(cell.as_str());
        j = j + 1;
        assert(out@ == old(out)@ + rendered_row(cells, columns@, spacing, last, j as int)) by {
            assert(out@ == before + separator(spacing, j - 1) + cell@);
            assert(rendered_row(cells, columns@, spacing, last, j as int) == rendered_row(
                cells,
                columns@,
                spacing,
                last,
                j - 1,
            ) + separator(spacing, j - 1) + cell@);
        }
    }
}

/// Sets columns of wrapped lines side by side.
///
/// `wrapped` holds the lines of each column, from the first column to the
/// last, and `columns` the width and the alignment of each. Line `r` of every
/// column goes into row `r`. A column that has fewer lines than another gets
/// empty cells below its last line, so that there are as many rows as the
/// tallest column has lines, and as many cells in each as there are columns.
/// In a row, [`Spacing::BETWEEN`] puts one space in front of every cell but
/// the first and [`Spacing::AROUND`] one in front of every cell, the first
/// too, though none behind the last. The cells of the last row are aligned as
/// last lines. The rows are joined with line feeds.
///
/// Every line must fit into its column.
pub fn compose(wrapped: Vec<Vec<String>>, spacing: Spacing, columns: &Vec<Column>) -> (out: String)
    requires
        wrapped.len() == columns.len(),
        cells_fit(tables(wrapped@), columns@),
    ensures
        out@ == composed(tables(wrapped@), spacing, columns@),
{
    let ghost per_column = tables(wrapped@);
    let mut rows = wrapped;
    invert_2d_vec(&mut rows);
    proof {
        lemma_longest_is_tallest(wrapped@);
        lemma_grid_shape(per_column);
        assert forall|r: int| 0 <= r < rows.len() implies #[trigger] tables(rows@)[r] == grid(
            per_column,
        )[r] by {
            assert forall|j: int| 0 <= j < wrapped.len() implies texts(rows@[r]@)[j] == grid(
                per_column,
            )[r][j] by {
                assert(per_column[j] == texts(wrapped@[j]@));
                if r < wrapped@[j].len() {
                    assert(rows@[r]@[j] == wrapped@[j]@[r]);
                    assert(per_column[j][r] == wrapped@[j]@[r]@);
                } else {
                    assert(call_ensures(String::default, (), rows@[r]@[j]));
                }
            }
            assert(tables(rows@)[r] =~= grid(per_column)[r]);
        }
        assert(tables(rows@) =~= grid(per_column));
    }
    let height = rows.len();
    let mut out = String::new();
    for r in 0..height
        invariant
            height == rows.len(),
            per_column == tables(wrapped@),
            wrapped.len() == columns.len(),
            cells_fit(per_column, columns@),
            tables(rows@) == grid(per_column),
            forall|r: int| 0 <= r < rows.len() ==> (#[trigger] rows@[r]).len() == columns.len(),
            out@ == rendered(grid(per_column), columns@, spacing, r as int),
    {
        let last = r == height - 1;
        let row = &rows[r];
        proof {
            assert(texts(row@) == tables(rows@)[r as int]);
            assert forall|j: int| 0 <= j < row.len() implies display_width(
                (#[trigger] row@[j])@,
            ) <= columns[j].width by {
                assert(texts(row@)[j] == row@[j]@);
                assert(texts(row@)[j] == grid(per_column)[r as int][j]);
                if r < per_column[j].len() {
                    assert(all_fit(per_column[j], columns[j].width as nat));
                }
            }
        }
        render_row(&mut out, row, columns, spacing, last);
        if !last {
            out.push('\n');
        }
    }
    out
}

/// The lines that each text is wrapped into at the width of its column.
pub open spec fn wrapped_columns(content: Seq<Seq<char>>, columns: Seq<Column>) -> Seq<
    Seq<Seq<char>>,
> {
    Seq::new(content.len(), |j: int| wrapped(content[j], columns[j].width as nat))
}

/// What a list of string slices holds, as sequences of characters.
pub open spec fn sources(content: Seq<&str>) -> Seq<Seq<char>> {
    Seq::new(content.len(), |j: int| content[j]@)
}

/// What comes of setting texts in columns within `width`.
///
/// There must be a text, and `width` must hold the spacing. What is left of
/// it is divided by the layout, resolved for as many columns as there are
/// texts. Each text is wrapped to the width of its column, and each of its
/// lines must then fit that width. The result is the columns set side by
/// side.
pub open spec fn columns_outcome(
    content: Seq<Seq<char>>,
    spacing: Spacing,
    layout: LayoutView,
    width: nat,
) -> Result<Seq<char>, ColumnsError> {
    let count = content.len();
    if count == 0 {
        Err(ColumnsError::NoColumns)
    } else if spacing_overhead(spacing, count) > width {
        Err(ColumnsError::WidthTooSmall)
    } else {
        match layout.refusal(count) {
            Some(error) => Err(ColumnsError::Layout(error)),
            None => {
                let usable = (width - spacing_overhead(spacing, count)) as nat;
                let resolved = resolution(layout.expanded(count), usable);
                let lines = wrapped_columns(content, resolved);
                if cells_fit(lines, resolved) {
                    Ok(composed(lines, spacing, resolved))
                } else {
                    Err(ColumnsError::LineTooWide)
                }
            },
        }
    }
}

/// Tells whether `width` holds the spacing of `count` columns.
fn spacing_fits(spacing: Spacing, count: usize, width: usize) -> (fits: bool)
    ensures
        fits == (spacing_overhead(spacing, count as nat) <= width),
{
    match spacing {
        Spacing::NONE => true,
        Spacing::BETWEEN => count == 0 || count - 1 <= width,
        Spacing::AROUND => count < width,
    }
}

/// Wraps and aligns text within columns.
///
/// There are as many columns as there are strings in `content`. The layout
/// says how wide each is and how its text is aligned; see
/// [`Layout::resolve`]. Each text is wrapped to the width of its column, with
/// long words broken and words split at hyphens, and the columns are set
/// side by side as [`compose`] does.
///
/// There are three spacing modes:
/// * `BETWEEN` adds margins between the columns,
/// * `AROUND` adds margins between the columns and in front of the first,
/// * `NONE` doesn't add any margins.
#[verifier::loop_isolation(false)]
pub fn columns(content: &[&str], spacing: Spacing, layout: &Layout, width: usize) -> (out: Result<
    String,
    ColumnsError,
>)
    ensures
        match out {
            Ok(text) => columns_outcome(sources(content@), spacing, layout@, width as nat) == Ok::<
                Seq<char>,
                ColumnsError,
            >(text@),
            Err(error) => columns_outcome(sources(content@), spacing, layout@, width as nat)
                == Err::<Seq<char>, ColumnsError>(error),
        },
{
    let count = content.len();
    if count == 0 {
        return Err(ColumnsError::NoColumns);
    }
    if !spacing_fits(spacing, count, width) {
        return Err(ColumnsError::WidthTooSmall);
    }
    let usable = width - spacing_needed(spacing, count);
    let resolved = match layout.resolve(usable, count) {
        Ok(resolved) => resolved,
        Err(error) => {
            return Err(ColumnsError::Layout(error));
        },
    };
    proof {
        lemma_resolution_unique(layout@.expanded(count as nat), usable as nat, resolved@);
    }
    let ghost lines = wrapped_columns(sources(content@), resolved@);
    let mut lists: Vec<Vec<String>> = Vec::new();
    for j in 0..count
        invariant
            count == content.len(),
            resolved.len() == count,
            lines == wrapped_columns(sources(content@), resolved@),
            lists.len() == j,
            forall|k: int| 0 <= k < j ==> texts((#[trigger] lists@[k])@) == lines[k],
            forall|k: int| 0 <= k < j ==> all_fit(#[trigger] lines[k], resolved[k].width as nat),
    {
        let list = wrap(content[j], resolved[j].width);
        assert(texts(list@) == lines[j as int]);
        if !lines_fit(&list, resolved[j].width) {
            assert(!all_fit(lines[j as int], resolved@[j as int].width as nat));
            return Err(ColumnsError::LineTooWide);
        }
        lists.push(list);
    }
    assert(tables(lists@) =~= lines);
    Ok(compose(lists, spacing, &resolved))
}

} // verus!
