//! Layout directions.

use vstd::prelude::*;

verus! {

/// Alignment across the layout direction.
#[derive(Clone, Copy, Debug, PartialEq, Eq, Structural)]
pub enum Align {
    Start,
    Center,
    End,
}

/// Layout direction for content, with the cross-axis alignment.
#[derive(Clone, Copy, Debug)]
pub enum Direction {
    Vertical(Align),
    Horizontal(Align),
}

impl Align {
    /// The alignment every layout starts from.
    pub open spec fn spec_default() -> Align {
        Align::Start
    }
}

impl Default for Align {
    fn default() -> (r: Self)
        ensures
            r == Align::spec_default(),
    {
        Align::Start
    }
}

impl Direction {
    /// The direction every layout starts from.
    pub open spec fn spec_default() -> Direction {
        Direction::Vertical(Align::Start)
    }

    /// The cross-axis alignment of this direction.
    pub open spec fn spec_align(self) -> Align {
        match self {
            Direction::Horizontal(align) => align,
            Direction::Vertical(align) => align,
        }
    }

    /// The axis children are laid out along: `0` for horizontal, `1` for
    /// vertical layouts.
    pub open spec fn along(self) -> int {
        match self {
            Direction::Horizontal(_) => 0,
            Direction::Vertical(_) => 1,
        }
    }

    /// The axis perpendicular to the layout direction.
    pub open spec fn across(self) -> int {
        match self {
            Direction::Horizontal(_) => 1,
            Direction::Vertical(_) => 0,
        }
    }

    /// The cross-axis alignment of this direction.
    pub fn align(&self) -> (r: Align)
        ensures
            r == self.spec_align(),
    {
        match self {
            Direction::Horizontal(align) => *align,
            Direction::Vertical(align) => *align,
        }
    }
}

impl Default for Direction {
    /// Vertical, aligned to the start.
    fn default() -> (r: Self)
        ensures
            r == Direction::spec_default(),
    {
        Direction::Vertical(Align::Start)
    }
}

} // verus!
