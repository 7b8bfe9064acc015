//! Border styles.
use vstd::prelude::*;

verus! {

/// How a border line is drawn.
#[derive(Debug, Clone, Copy, PartialEq, Eq, Structural)]
pub enum BorderStyle {
    Solid,
    Dashed,
    Dotted,
}

impl Default for BorderStyle {
    fn default() -> (b: Self)
        ensures
            b == BorderStyle::Solid,
    {
        BorderStyle::Solid
    }
}

} // verus!
