//! Text in columns, aligned to the left or to the right, centred or
//! justified, for displays of fixed pitch.
//!
//! [`align`] wraps a text and aligns its lines. [`columns`] sets several
//! texts side by side, in columns whose widths a [`Layout`] declares: fixed
//! widths, shares of what is left, and a column that repeats as often as
//! there are texts to hold. The wrapping is that of `textwrap`, and widths
//! are counted in cells as `unicode_width` counts them.

use vstd::prelude::*;

pub mod align;
pub mod columns;
pub mod content;
pub mod layout;
pub mod pattern;
pub mod text;
pub mod utils;
pub mod width;
pub mod wrap;

pub use crate::align::align;
pub use crate::columns::columns;
pub use crate::layout::Layout;

verus! {

/// Text alignment inside a fixed width.
#[derive(Copy, Clone, Debug, PartialEq, Eq, Structural)]
pub enum Alignment {
    /// Left-aligned
    LEFT,
    /// Centered
    CENTER,
    /// Right-aligned
    RIGHT,
    /// Justified
    JUSTIFY,
}

/// Column spacing.
#[derive(Copy, Clone, Debug, PartialEq, Eq, Structural)]
pub enum Spacing {
    /// No spacing
    NONE,
    /// Space between columns
    BETWEEN,
    /// Space between and around columns
    AROUND,
}

} // verus!
