//! Key-figure cards: the trend shown beside a value.
use vstd::prelude::*;

verus! {

/// Which way a key figure moved.
#[derive(Debug, Clone, Copy, PartialEq, Eq, Structural)]
pub enum TrendDirection {
    Up,
    Down,
    Neutral,
}

/// The trend of a key figure, with its text (such as `+12%`).
#[derive(Debug, Clone)]
pub struct KpiTrend {
    pub direction: TrendDirection,
    pub value: String,
}

} // verus!
