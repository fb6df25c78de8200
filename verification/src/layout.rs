use vstd::prelude::*;

use crate::text::{decimal_digits, push_decimal};
use crate::utils::{
    breakpoint, breakpoint_at, lemma_breakpoint_ends, lemma_breakpoint_identity,
    lemma_breakpoint_monotonic, lemma_shares_telescope, shares, sum,
};
use crate::Alignment;

verus! {

/// The unit in which the width of a declared column is given.
#[derive(Copy, Clone, Debug, PartialEq, Eq, Structural)]
pub enum ColWidthUnit {
    /// Cells of the display
    CHARACTER,
    /// Shares of the space that the fixed columns leave
    FRACTIONAL,
}

/// A column as a layout declares it.
#[derive(Copy, Clone, Debug, PartialEq, Eq, Structural)]
pub struct DynCol {
    /// The width, in `unit`s
    pub size: usize,
    /// The unit of `size`
    pub unit: ColWidthUnit,
    /// How text is aligned inside the column
    pub align: Alignment,
}

/// A column with its width worked out.
#[derive(Copy, Clone, Debug, PartialEq, Eq, Structural)]
pub struct Column {
    /// The width in cells
    pub width: usize,
    /// How text is aligned inside the column
    pub alignment: Alignment,
}

/// Why a layout cannot be resolved for a number of columns.
#[derive(Copy, Clone, Debug, PartialEq, Eq, Structural)]
pub enum LayoutError {
    /// Fewer columns were asked for than the layout declares outside its
    /// repeating column.
    InsufficientColumns {
        /// The number of declared columns, or `usize::MAX` where it is larger
        expected: usize,
        /// The number of columns asked for
        got: usize,
    },
    /// More columns were asked for than the layout declares, and it has no
    /// repeating column to make up for them.
    ColumnCountMismatch {
        /// The number of declared columns
        expected: usize,
        /// The number of columns asked for
        got: usize,
    },
}

impl LayoutError {
    /// The error in words, as a spec value.
    pub open spec fn message_text(self) -> Seq<char> {
        match self {
            LayoutError::InsufficientColumns { expected, got } => "Expected at least "@
                + decimal_digits(expected as nat) + " columns, got "@ + decimal_digits(got as nat),
            LayoutError::ColumnCountMismatch { expected, got } => "Expected "@ + decimal_digits(
                expected as nat,
            ) + " columns, got "@ + decimal_digits(got as nat),
        }
    }

    /// The error in words.
    pub fn message(&self) -> (text: String)
        ensures
            text@ == self.message_text(),
    {
        let mut text = String::new();
        match self {
            LayoutError::InsufficientColumns { expected, got } => {
                text.append("Expected at least ");
                push_decimal(&mut text, *expected);
                text.append(" columns, got ");
                push_decimal(&mut text, *got);
            },
            LayoutError::ColumnCountMismatch { expected, got } => {
                text.append("Expected ");
                push_decimal(&mut text, *expected);
                text.append(" columns, got ");
                push_decimal(&mut text, *got);
            },
        }
        text
    }
}

/// Dynamic columns layout.
///
/// A layout declares columns of fixed and of fractional width, and at most
/// one repeating column, which stands for as many columns as it takes to
/// reach the number asked for.
#[derive(Debug)]
pub struct Layout {
    // columns before the repeating one
    left: Vec<DynCol>,
    // the repeating column
    fill: Option<DynCol>,
    // columns after the repeating one
    right: Vec<DynCol>,
}

/// What a layout holds: the columns before the repeating one, the repeating
/// one, and the columns after it.
pub struct LayoutView {
    /// The columns before the repeating one
    pub left: Seq<DynCol>,
    /// The repeating column
    pub fill: Option<DynCol>,
    /// The columns after the repeating one
    pub right: Seq<DynCol>,
}

impl View for Layout {
    type V = LayoutView;

    closed spec fn view(&self) -> LayoutView {
        LayoutView { left: self.left@, fill: self.fill, right: self.right@ }
    }
}

/// `n` copies of the repeating column, none where there is no such column.
pub open spec fn copies(fill: Option<DynCol>, n: nat) -> Seq<DynCol> {
    match fill {
        Some(column) => Seq::new(n, |i: int| column),
        None => Seq::empty(),
    }
}

impl LayoutView {
    /// The layout without any column.
    pub open spec fn blank() -> LayoutView {
        LayoutView { left: Seq::empty(), fill: None, right: Seq::empty() }
    }

    /// The layout with one more column: before the repeating column as long
    /// as there is none, after it from then on.
    pub open spec fn with_column(self, column: DynCol) -> LayoutView {
        if self.fill is None {
            LayoutView { left: self.left.push(column), ..self }
        } else {
            LayoutView { right: self.right.push(column), ..self }
        }
    }

    /// Whether the last column can be made the repeating one: there is such
    /// a column, and no repeating column yet.
    pub open spec fn can_repeat(self) -> bool {
        self.fill is None && self.left.len() > 0
    }

    /// The layout with its last column made the repeating one.
    pub open spec fn with_repeat(self) -> LayoutView {
        LayoutView { left: self.left.drop_last(), fill: Some(self.left.last()), right: self.right }
    }

    /// The number of columns outside the repeating one.
    pub open spec fn declared(self) -> nat {
        self.left.len() + self.right.len()
    }

    /// The number of columns that are missing when `columns` columns are
    /// asked for.
    pub open spec fn missing(self, columns: nat) -> nat {
        if columns > self.declared() {
            (columns - self.declared()) as nat
        } else {
            0
        }
    }

    /// The columns of the layout when `columns` columns are asked for: the
    /// repeating column stands as often as columns are missing.
    pub open spec fn expanded(self, columns: nat) -> Seq<DynCol> {
        self.left + copies(self.fill, self.missing(columns)) + self.right
    }

    /// Why the layout cannot be resolved for `columns` columns, if it cannot.
    pub open spec fn refusal(self, columns: nat) -> Option<LayoutError> {
        if columns < self.declared() {
            Some(
                LayoutError::InsufficientColumns {
                    expected: if self.declared() > usize::MAX {
                        usize::MAX
                    } else {
                        self.declared() as usize
                    },
                    got: columns as usize,
                },
            )
        } else if columns > self.declared() && self.fill is None {
            Some(
                LayoutError::ColumnCountMismatch {
                    expected: self.declared() as usize,
                    got: columns as usize,
                },
            )
        } else {
            None
        }
    }
}

/// The widths of the fixed columns added up.
pub open spec fn fixed_total(columns: Seq<DynCol>) -> nat
    decreases columns.len(),
{
    if columns.len() == 0 {
        0
    } else {
        fixed_total(columns.drop_last()) + match columns.last().unit {
            ColWidthUnit::CHARACTER => columns.last().size as nat,
            ColWidthUnit::FRACTIONAL => 0,
        }
    }
}

/// The fractional units of the fractional columns added up.
pub open spec fn fraction_units(columns: Seq<DynCol>) -> nat
    decreases columns.len(),
{
    if columns.len() == 0 {
        0
    } else {
        fraction_units(columns.drop_last()) + match columns.last().unit {
            ColWidthUnit::CHARACTER => 0,
            ColWidthUnit::FRACTIONAL => columns.last().size as nat,
        }
    }
}

/// The cells that the fractional columns share: what the fixed columns leave
/// of `width`, and not less than one cell for each unit.
pub open spec fn fraction_space(columns: Seq<DynCol>, width: nat) -> nat {
    let units = fraction_units(columns);
    let free = width - fixed_total(columns);
    if free > units {
        free as nat
    } else {
        units
    }
}

/// The width of column `j`. A fixed column is as wide as declared. The
/// space for the fractional columns is divided evenly into one slot for each
/// unit, and a fractional column of `k` units gets the next `k` slots.
pub open spec fn column_width(columns: Seq<DynCol>, width: nat, j: int) -> nat {
    match columns[j].unit {
        ColWidthUnit::CHARACTER => columns[j].size as nat,
        ColWidthUnit::FRACTIONAL => {
            let slots = shares(fraction_space(columns, width), fraction_units(columns));
            let first = fraction_units(columns.take(j));
            sum(slots.subrange(first as int, first + columns[j].size))
        },
    }
}

/// Whether `resolved` gives each of `columns` its width within `width` and
/// its alignment.
pub open spec fn resolves(columns: Seq<DynCol>, width: nat, resolved: Seq<Column>) -> bool {
    &&& resolved.len() == columns.len()
    &&& forall|j: int|
        0 <= j < columns.len() ==> (#[trigger] resolved[j]).width == column_width(columns, width, j)
            && resolved[j].alignment == columns[j].align
}

/// The resolved columns: each of `columns` with its width within `width` and
/// its alignment.
pub open spec fn resolution(columns: Seq<DynCol>, width: nat) -> Seq<Column> {
    Seq::new(
        columns.len(),
        |j: int|
            Column { width: column_width(columns, width, j) as usize, alignment: columns[j].align },
    )
}

/// There is one way to resolve columns within a width.
pub proof fn lemma_resolution_unique(columns: Seq<DynCol>, width: nat, resolved: Seq<Column>)
    requires
        resolves(columns, width, resolved),
    ensures
        resolved == resolution(columns, width),
{
    assert(resolved =~= resolution(columns, width));
}

/// The fixed widths of a longer list are those of its beginning and more.
proof fn lemma_totals_prefix(columns: Seq<DynCol>, j: int)
    requires
        0 <= j <= columns.len(),
    ensures
        fixed_total(columns.take(j)) <= fixed_total(columns),
        fraction_units(columns.take(j)) <= fraction_units(columns),
        fixed_total(columns) <= columns.len() * usize::MAX,
        fraction_units(columns) <= columns.len() * usize::MAX,
    decreases columns.len(),
{
    if columns.len() == 0 {
        assert(columns.take(j) == columns);
    } else {
        let front = columns.drop_last();
        assert(columns.len() * usize::MAX == front.len() * usize::MAX + usize::MAX)
            by (nonlinear_arith)
            requires
                columns.len() == front.len() + 1,
        ;
        if j == columns.len() {
            assert(columns.take(j) == columns);
            lemma_totals_prefix(front, front.len() as int);
        } else {
            assert(columns.take(j) == front.take(j));
            lemma_totals_prefix(front, j);
        }
    }
}

/// One column more, as the two totals see it.
proof fn lemma_totals_step(columns: Seq<DynCol>, j: int)
    requires
        0 <= j < columns.len(),
    ensures
        fixed_total(columns.take(j + 1)) == fixed_total(columns.take(j)) + match columns[j].unit {
            ColWidthUnit::CHARACTER => columns[j].size as nat,
            ColWidthUnit::FRACTIONAL => 0,
        },
        fraction_units(columns.take(j + 1)) == fraction_units(columns.take(j))
            + match columns[j].unit {
            ColWidthUnit::CHARACTER => 0,
            ColWidthUnit::FRACTIONAL => columns[j].size as nat,
        },
{
    assert(columns.take(j + 1).drop_last() == columns.take(j));
}

/// A column is never resolved wider than a machine word holds, as long as
/// the width is one.
pub proof fn lemma_column_width_fits(columns: Seq<DynCol>, width: nat, j: int)
    requires
        0 <= j < columns.len(),
        width <= usize::MAX,
    ensures
        column_width(columns, width, j) <= usize::MAX,
{
    let units = fraction_units(columns);
    let space = fraction_space(columns, width);
    let first = fraction_units(columns.take(j));
    let size = columns[j].size as nat;
    if columns[j].unit == ColWidthUnit::FRACTIONAL {
        lemma_totals_step(columns, j);
        lemma_totals_prefix(columns, j + 1);
        if size == 0 {
            assert(shares(space, units).subrange(first as int, first as int) == Seq::<
                nat,
            >::empty());
        } else {
            lemma_shares_telescope(space, units, first, first + size);
            if space == units {
                lemma_breakpoint_identity(units, first);
                lemma_breakpoint_identity(units, first + size);
            } else {
                lemma_breakpoint_monotonic(space, units, first + size, units);
                lemma_breakpoint_ends(space, units);
            }
        }
    }
}

/// The widths of the first `count` resolved columns added up.
pub open spec fn widths_total(columns: Seq<DynCol>, width: nat, count: int) -> nat
    decreases count,
{
    if count <= 0 {
        0
    } else {
        widths_total(columns, width, count - 1) + column_width(columns, width, count - 1)
    }
}

/// The first `count` columns take the fixed widths among them and the cells
/// up to the mark of their fractional units.
proof fn lemma_widths_total(columns: Seq<DynCol>, width: nat, count: int)
    requires
        0 <= count <= columns.len(),
    ensures
        widths_total(columns, width, count) == fixed_total(columns.take(count)) + breakpoint(
            fraction_space(columns, width),
            fraction_units(columns),
            fraction_units(columns.take(count)),
        ),
    decreases count,
{
    let units = fraction_units(columns);
    let space = fraction_space(columns, width);
    if count == 0 {
        if units > 0 {
            lemma_breakpoint_ends(space, units);
        }
    } else {
        let j = count - 1;
        let first = fraction_units(columns.take(j));
        let size = columns[j].size as nat;
        lemma_widths_total(columns, width, j);
        lemma_totals_step(columns, j);
        lemma_totals_prefix(columns, count);
        if columns[j].unit == ColWidthUnit::FRACTIONAL {
            if size == 0 {
                assert(shares(space, units).subrange(first as int, first as int) == Seq::<
                    nat,
                >::empty());
            } else {
                lemma_shares_telescope(space, units, first, first + size);
                lemma_breakpoint_monotonic(space, units, first, first + size);
            }
        }
    }
}

/// All the resolved columns together take the fixed widths and, where there
/// is a fractional unit, the space of the fractional columns. So with a
/// fractional unit, and with a width that holds the fixed columns and a cell
/// for each unit, they take exactly the width.
pub proof fn lemma_resolution_fills_width(columns: Seq<DynCol>, width: nat)
    ensures
        widths_total(columns, width, columns.len() as int) == fixed_total(columns) + if fraction_units(
            columns,
        ) > 0 {
            fraction_space(columns, width)
        } else {
            0
        },
        fraction_units(columns) > 0 && fixed_total(columns) + fraction_units(columns) <= width
            ==> widths_total(columns, width, columns.len() as int) == width,
{
    lemma_widths_total(columns, width, columns.len() as int);
    assert(columns.take(columns.len() as int) == columns);
    if fraction_units(columns) > 0 {
        lemma_breakpoint_ends(fraction_space(columns, width), fraction_units(columns));
    }
}

/// Adds up the fixed widths and the fractional units.
fn totals(columns: &Vec<DynCol>) -> (both: (u128, u128))
    ensures
        both.0 == fixed_total(columns@),
        both.1 == fraction_units(columns@),
{
    let mut fixed: u128 = 0;
    let mut units: u128 = 0;
    let count = columns.len();
    for j in 0..count
        invariant
            count == columns.len(),
            fixed == fixed_total(columns@.take(j as int)),
            units == fraction_units(columns@.take(j as int)),
    {
        proof {
            lemma_totals_step(columns@, j as int);
            lemma_totals_prefix(columns@.take(j + 1), j + 1);
            assert((j + 1) * usize::MAX <= 0xffff_ffff_ffff_ffff * 0xffff_ffff_ffff_ffff)
                by (nonlinear_arith)
                requires
                    0 <= j + 1 <= usize::MAX,
                    usize::MAX <= 0xffff_ffff_ffff_ffff,
            ;
        }
        let column = columns[j];
        match column.unit {
            ColWidthUnit::CHARACTER => {
                fixed = fixed + column.size as u128;
            },
            ColWidthUnit::FRACTIONAL => {
                units = units + column.size as u128;
            },
        }
    }
    assert(columns@.take(count as int) == columns@);
    (fixed, units)
}

impl Clone for Layout {
    fn clone(&self) -> (copy: Self)
        ensures
            copy@ == self@,
    {
        let copy = Layout { left: self.left.clone(), fill: self.fill, right: self.right.clone() };
        assert(copy.left@ =~= self.left@);
        assert(copy.right@ =~= self.right@);
        copy
    }
}

impl Layout {
    /// Creates a new blank layout.
    ///
    /// Add columns to it with [`Layout::fractional`] or [`Layout::fixed`]
    /// before using it.
    pub fn new() -> (layout: Self)
        ensures
            layout@ == LayoutView::blank(),
    {
        Layout { left: Vec::new(), fill: None, right: Vec::new() }
    }

    /// The default layout.
    ///
    /// Accepts any number of columns, each one with a width of 1 fractional
    /// unit and aligned to the left. The same as the pattern `<-*`.
    pub fn default() -> (layout: Self)
        ensures
            layout@ == (LayoutView {
                left: Seq::empty(),
                fill: Some(
                    DynCol { size: 1, unit: ColWidthUnit::FRACTIONAL, align: Alignment::LEFT },
                ),
                right: Seq::empty(),
            }),
    {
        let layout = Layout::new().fractional(1, Alignment::LEFT).repeat();
        assert(layout@.left =~= Seq::empty());
        layout
    }

    /// The columns before the repeating one.
    pub fn left(&self) -> (columns: &Vec<DynCol>)
        ensures
            columns@ == self@.left,
    {
        &self.left
    }

    /// The repeating column.
    pub fn fill(&self) -> (column: Option<DynCol>)
        ensures
            column == self@.fill,
    {
        self.fill
    }

    /// The columns after the repeating one.
    pub fn right(&self) -> (columns: &Vec<DynCol>)
        ensures
            columns@ == self@.right,
    {
        &self.right
    }

    /// Adds a declared column.
    fn with(self, column: DynCol) -> (layout: Self)
        ensures
            layout@ == self@.with_column(column),
    {
        let mut layout = self;
        match layout.fill {
            None => layout.left.push(column),
            Some(_) => layout.right.push(column),
        }
        layout
    }

    /// Adds a column with fractional size.
    ///
    /// The column gets its part of the space that the fixed columns leave:
    /// `size` parts of as many as the fractional columns have together
    /// (like the `fr` unit in CSS).
    pub fn fractional(self, size: usize, alignment: Alignment) -> (layout: Self)
        ensures
            layout@ == self@.with_column(
                DynCol { size, unit: ColWidthUnit::FRACTIONAL, align: alignment },
            ),
    {
        self.with(DynCol { size, unit: ColWidthUnit::FRACTIONAL, align: alignment })
    }

    /// Adds a column with a fixed width in characters.
    ///
    /// The resolved width is that width.
    pub fn fixed(self, size: usize, alignment: Alignment) -> (layout: Self)
        ensures
            layout@ == self@.with_column(
                DynCol { size, unit: ColWidthUnit::CHARACTER, align: alignment },
            ),
    {
        self.with(DynCol { size, unit: ColWidthUnit::CHARACTER, align: alignment })
    }

    /// Sets the last column of the layout as repeating.
    ///
    /// The repeating column is left out or stands several times, whatever it
    /// takes to reach the number of columns asked for (like `*` in a regular
    /// expression).
    ///
    /// Only one column can be repeated, and there must be a column to
    /// repeat. Unverified code that breaks this rule is stopped by a panic.
    /// [`Layout::try_repeat`] can be called on any layout.
    pub fn repeat(self) -> (layout: Self)
        requires
            self@.can_repeat(),
        ensures
            layout@ == self@.with_repeat(),
    {
        let mut layout = self;
        if layout.fill.is_some() {
            let second: Option<DynCol> = None;
            second.expect("Only one column can be repeated");
        }
        layout.fill = Some(layout.left.pop().expect("No column to repeat"));
        layout
    }

    /// Sets the last column of the layout as repeating, if that can be done,
    /// and hands the layout back unchanged if not.
    pub fn try_repeat(self) -> (outcome: Result<Self, Self>)
        ensures
            match outcome {
                Ok(layout) => self@.can_repeat() && layout@ == self@.with_repeat(),
                Err(layout) => !self@.can_repeat() && layout@ == self@,
            },
    {
        let mut layout = self;
        if layout.fill.is_some() {
            return Err(layout);
        }
        match layout.left.pop() {
            Some(column) => {
                layout.fill = Some(column);
                Ok(layout)
            },
            None => Err(layout),
        }
    }

    /// The declared columns, with the repeating column standing `missing`
    /// times.
    fn expand(&self, missing: usize) -> (all: Vec<DynCol>)
        ensures
            all@ == self@.left + copies(self@.fill, missing as nat) + self@.right,
    {
        let mut all: Vec<DynCol> = Vec::new();
        for i in 0..self.left.len()
            invariant
                all@ == self.left@.take(i as int),
        {
            all.push(self.left[i]);
        }
        assert(self.left@.take(self.left@.len() as int) == self.left@);
        match self.fill {
            Some(column) => {
                for i in 0..missing
                    invariant
                        self.fill == Some(column),
                        all@ == self.left@ + copies(self.fill, i as nat),
                {
                    all.push(column);
                }
            },
            None => {
                assert(all@ == self.left@ + copies(self.fill, missing as nat));
            },
        }
        let ghost middle = all@;
        for i in 0..self.right.len()
            invariant
                all@ == middle + self.right@.take(i as int),
        {
            all.push(self.right[i]);
        }
        assert(self.right@.take(self.right@.len() as int) == self.right@);
        all
    }

    /// Calculates all the dynamic columns for a given width and number of
    /// columns.
    ///
    /// The layout must not declare more columns than asked for, and only a
    /// layout with a repeating column can have fewer. The fixed columns get
    /// their width. What they leave of `width` is divided among the
    /// fractional columns by their units; where that is less than one cell
    /// for each unit, each gets one cell for each unit instead and the
    /// columns together are wider than `width`.
    pub fn resolve(&self, width: usize, columns: usize) -> (resolved: Result<
        Vec<Column>,
        LayoutError,
    >)
        ensures
            match resolved {
                Ok(list) => self@.refusal(columns as nat) is None && resolves(
                    self@.expanded(columns as nat),
                    width as nat,
                    list@,
                ),
                Err(error) => self@.refusal(columns as nat) == Some(error),
            },
            columns < self@.declared() ==> resolved matches Err(
                LayoutError::InsufficientColumns { .. },
            ),
            columns > self@.declared() && self@.fill is None ==> resolved matches Err(
                LayoutError::ColumnCountMismatch { .. },
            ),
            columns == self@.declared() || (columns > self@.declared() && self@.fill is Some)
                ==> resolved is Ok,
    {
        let declared = match self.left.len().checked_add(self.right.len()) {
            Some(declared) => declared,
            None => {
                return Err(LayoutError::InsufficientColumns { expected: usize::MAX, got: columns });
            },
        };
        if columns < declared {
            return Err(LayoutError::InsufficientColumns { expected: declared, got: columns });
        }
        let missing = columns - declared;
        if missing > 0 && self.fill.is_none() {
            return Err(LayoutError::ColumnCountMismatch { expected: declared, got: columns });
        }
        let all = self.expand(missing);
        let (fixed, units) = totals(&all);
        let free: u128 = if fixed < width as u128 {
            width as u128 - fixed
        } else {
            0
        };
        let stretched = free > units;
        let ghost space = fraction_space(all@, width as nat);
        let mut list: Vec<Column> = Vec::new();
        let mut first: u128 = 0;
        let mut mark: usize = 0;
        proof {
            if units > 0 {
                lemma_breakpoint_ends(space, units as nat);
            }
        }
        for j in 0..all.len()
            invariant
                fixed == fixed_total(all@),
                units == fraction_units(all@),
                space == fraction_space(all@, width as nat),
                stretched == (free > units),
                free <= width,
                stretched ==> space == free,
                !stretched ==> space == units,
                first == fraction_units(all@.take(j as int)),
                stretched && units > 0 ==> mark == breakpoint(space, units as nat, first as nat),
                list@.len() == j,
                forall|k: int|
                    0 <= k < j ==> (#[trigger] list@[k]).width == column_width(
                        all@,
                        width as nat,
                        k,
                    ) && list@[k].alignment == all@[k].align,
        {
            let column = all[j];
            proof {
                lemma_totals_step(all@, j as int);
                lemma_totals_prefix(all@, j + 1);
            }
            match column.unit {
                ColWidthUnit::CHARACTER => {
                    list.push(Column { width: column.size, alignment: column.align });
                },
                ColWidthUnit::FRACTIONAL => {
                    let next: u128 = first + column.size as u128;
                    let cells: usize = if column.size == 0 {
                        assert(shares(space, units as nat).subrange(first as int, first as int)
                            == Seq::<nat>::empty());
                        0
                    } else if stretched {
                        proof {
                            lemma_shares_telescope(space, units as nat, first as nat, next as nat);
                        }
                        let next_mark = breakpoint_at(free as usize, units as usize, next as usize);
                        let cells = next_mark - mark;
                        mark = next_mark;
                        cells
                    } else {
                        proof {
                            lemma_shares_telescope(space, units as nat, first as nat, next as nat);
                            lemma_breakpoint_identity(units as nat, first as nat);
                            lemma_breakpoint_identity(units as nat, next as nat);
                        }
                        column.size
                    };
                    first = next;
                    list.push(Column { width: cells, alignment: column.align });
                },
            }
        }
        Ok(list)
    }
}

/// Layouts that hold the same columns resolve alike, whichever way each was
/// made, by builder calls or from a pattern: for a width and a number of
/// columns, both are refused for the same reason or both give the same
/// columns.
pub proof fn lemma_resolve_alike(
    a: Layout,
    b: Layout,
    width: usize,
    columns: usize,
    of_a: Result<Vec<Column>, LayoutError>,
    of_b: Result<Vec<Column>, LayoutError>,
)
    requires
        a@ == b@,
        call_ensures(Layout::resolve, (&a, width, columns), of_a),
        call_ensures(Layout::resolve, (&b, width, columns), of_b),
    ensures
        match (of_a, of_b) {
            (Ok(list_a), Ok(list_b)) => list_a@ == list_b@,
            (Err(error_a), Err(error_b)) => error_a == error_b,
            _ => false,
        },
{
    if of_a is Ok {
        let all = a@.expanded(columns as nat);
        lemma_resolution_unique(all, width as nat, of_a->Ok_0@);
        lemma_resolution_unique(all, width as nat, of_b->Ok_0@);
    }
}

} // verus!
