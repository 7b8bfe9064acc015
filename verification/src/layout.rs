//! Flexbox-style layout settings for containers.
use vstd::prelude::*;

verus! {

/// Layout direction for containers.
#[derive(Debug, Clone, Copy, PartialEq, Eq, Structural)]
pub enum Direction {
    /// Widgets are arranged horizontally.
    Row,
    /// Widgets are arranged vertically.
    Column,
    /// Grid layout with a fixed number of columns.
    Grid { columns: usize },
    /// Absolute positioning (no automatic layout).
    Absolute,
}

impl Default for Direction {
    fn default() -> (d: Self)
        ensures
            d == Direction::Column,
    {
        Direction::Column
    }
}

/// Alignment of items along the cross axis.
#[derive(Debug, Clone, Copy, PartialEq, Eq, Structural)]
pub enum Align {
    /// Align to the start of the cross axis.
    Start,
    /// Align to the center of the cross axis.
    Center,
    /// Align to the end of the cross axis.
    End,
    /// Stretch to fill the cross axis.
    Stretch,
}

impl Default for Align {
    fn default() -> (a: Self)
        ensures
            a == Align::Start,
    {
        Align::Start
    }
}

/// Justification of content along the main axis.
#[derive(Debug, Clone, Copy, PartialEq, Eq, Structural)]
pub enum Justify {
    /// Pack items to the start.
    Start,
    /// Pack items to the center.
    Center,
    /// Pack items to the end.
    End,
    /// Distribute items with space between them.
    SpaceBetween,
    /// Distribute items with space around them.
    SpaceAround,
}

impl Default for Justify {
    fn default() -> (j: Self)
        ensures
            j == Justify::Start,
    {
        Justify::Start
    }
}

} // verus!
