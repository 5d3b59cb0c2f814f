//! Fixed margins & padding.

use vstd::prelude::*;

use crate::axes::Axes;

verus! {

/// Margin & padding insets, expressed along the x and y axes:
/// - `start`: left inset on x, top inset on y
/// - `end`: right inset on x, bottom inset on y
#[derive(Clone, Copy, Debug)]
pub struct Insets {
    pub start: Axes<i32>,
    pub end: Axes<i32>,
}

impl Insets {
    /// All-zero insets.
    pub open spec fn spec_default() -> Insets {
        Insets { start: Axes { x: 0, y: 0 }, end: Axes { x: 0, y: 0 } }
    }

    /// Insets from the four sides.
    pub fn new(top: i32, bottom: i32, left: i32, right: i32) -> (r: Self)
        ensures
            r == (Insets { start: Axes { x: left, y: top }, end: Axes { x: right, y: bottom } }),
    {
        Insets { start: Axes { x: left, y: top }, end: Axes { x: right, y: bottom } }
    }

    /// The same inset on all four sides.
    pub fn uniform(value: i32) -> (r: Self)
        ensures
            r == (Insets {
                start: Axes { x: value, y: value },
                end: Axes { x: value, y: value },
            }),
    {
        Insets { start: Axes { x: value, y: value }, end: Axes { x: value, y: value } }
    }
}

impl Default for Insets {
    /// All-zero insets.
    fn default() -> (r: Self)
        ensures
            r == Insets::spec_default(),
    {
        Insets { start: Axes { x: 0, y: 0 }, end: Axes { x: 0, y: 0 } }
    }
}

} // verus!
