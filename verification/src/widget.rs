//! Settings shared by widgets, and the defaults that widget descriptions
//! fall back on.
use vstd::prelude::*;

verus! {

/// Horizontal alignment of text.
#[derive(Debug, Clone, Copy, PartialEq, Eq, Structural)]
pub enum TextAlign {
    Left,
    Center,
    Right,
}

impl Default for TextAlign {
    fn default() -> (a: Self)
        ensures
            a == TextAlign::Left,
    {
        TextAlign::Left
    }
}

/// Orientation for dividers and layout direction.
#[derive(Debug, Clone, Copy, PartialEq, Eq, Structural)]
pub enum Orientation {
    /// Horizontal orientation (left to right).
    Horizontal,
    /// Vertical orientation (top to bottom).
    Vertical,
}

impl Default for Orientation {
    fn default() -> (o: Self)
        ensures
            o == Orientation::Horizontal,
    {
        Orientation::Horizontal
    }
}

/// Default for flags that are on unless set.
pub fn default_true() -> (b: bool)
    ensures
        b,
{
    true
}

/// Default number of grid cells a widget spans.
pub fn default_span_one() -> (n: usize)
    ensures
        n == 1,
{
    1
}

/// Default number of suggestions a drop-down shows at once.
pub fn default_max_visible() -> (n: usize)
    ensures
        n == 5,
{
    5
}

/// Default format of dates: year, month and day.
pub fn default_date_format() -> (s: String)
    ensures
        s@ == "%Y-%m-%d"@,
{
    "%Y-%m-%d".to_string()
}

} // verus!
