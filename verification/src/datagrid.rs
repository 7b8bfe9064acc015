//! Settings of data grids.
use vstd::prelude::*;

verus! {

/// Selection mode for grid rows.
#[derive(Debug, Clone, Copy, PartialEq, Eq, Structural)]
pub enum SelectionMode {
    /// No selection allowed.
    Disabled,
    /// Single row selection.
    Single,
    /// Multiple row selection.
    Multiple,
}

impl Default for SelectionMode {
    fn default() -> (m: Self)
        ensures
            m == SelectionMode::Disabled,
    {
        SelectionMode::Disabled
    }
}

/// Sort direction of a grid column.
#[derive(Debug, Clone, Copy, PartialEq, Eq, Structural)]
pub enum SortDirection {
    /// Ascending order (A-Z, 0-9).
    Ascending,
    /// Descending order (Z-A, 9-0).
    Descending,
}

impl Default for SortDirection {
    fn default() -> (d: Self)
        ensures
            d == SortDirection::Ascending,
    {
        SortDirection::Ascending
    }
}

/// Default for column flags that are on unless set.
pub fn default_true() -> (b: bool)
    ensures
        b,
{
    true
}

/// Default number of columns a cell spans.
pub fn default_span_one() -> (n: usize)
    ensures
        n == 1,
{
    1
}

} // verus!
