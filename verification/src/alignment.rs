//! Column alignment, as declared by a table's delimiter row.

use vstd::prelude::*;

verus! {

/// Alignment of one table column.
#[derive(Clone, Copy, Debug, PartialEq, Eq, Structural)]
pub enum Alignment {
    /// No alignment marker (`---`).
    Unspecified,
    /// Left aligned (`:---`).
    Left,
    /// Centered (`:---:`).
    Center,
    /// Right aligned (`---:`).
    Right,
}

/// The fewest characters a delimiter cell of the given alignment can have,
/// padding not included: `---`, `:---`, `---:` or `:---:`.
pub open spec fn minimum_width(alignment: Alignment) -> nat {
    match alignment {
        Alignment::Center => 5,
        Alignment::Left | Alignment::Right => 4,
        Alignment::Unspecified => 3,
    }
}

/// Return the minimum number of characters a delimiter cell can have given a
/// specific alignment, not including any whitespace padding.
///
/// | Alignment       | Minimum characters |
/// | :-------------- | :----------------- |
/// | left            | `:---`             |
/// | right           | `---:`             |
/// | center          | `:---:`            |
/// | not specified   | `---`              |
pub fn get_alignment_cell_minimum_width(alignment: &Alignment) -> (width: u8)
    ensures
        width == minimum_width(*alignment),
{
    match alignment {
        Alignment::Center => 5,
        Alignment::Left | Alignment::Right => 4,
        Alignment::Unspecified => 3,
    }
}

} // verus!
