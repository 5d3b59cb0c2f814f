//! Layout constraints.

use vstd::prelude::*;

use crate::axes::Axes;
use crate::direction::{Align, Direction};
use crate::gap::Gap;
use crate::insets::Insets;
use crate::num::sat32;
use crate::size::Size;

verus! {

/// Layout rules for one node: a sizing policy and optional pixel bounds per
/// axis, margin and padding insets, the direction children are laid out in,
/// and the gap between consecutive children.
#[derive(Clone, Debug)]
pub struct Layout {
    pub size: Axes<Size>,
    pub min_size: Axes<Option<i32>>,
    pub max_size: Axes<Option<i32>>,
    pub margin: Insets,
    pub padding: Insets,
    pub direction: Direction,
    pub gap: Gap,
}

impl Layout {
    /// The layout all builders start from: fit on both axes, no bounds, no
    /// insets, vertical start-aligned, no gap.
    pub open spec fn spec_default() -> Layout {
        Layout {
            size: Axes { x: Size::Fit, y: Size::Fit },
            min_size: Axes { x: None, y: None },
            max_size: Axes { x: None, y: None },
            margin: Insets::spec_default(),
            padding: Insets::spec_default(),
            direction: Direction::spec_default(),
            gap: Gap::spec_default(),
        }
    }

    /// A computed size on axis `dim` clamped to this node's bounds: raised to
    /// `min_size` when set, then lowered to `max_size` when set (so on a
    /// conflicting `min > max` the upper bound prevails), and finally kept
    /// non-negative.
    pub open spec fn spec_clip(self, dim: int, size: int) -> int {
        let lo = match self.min_size.on(dim) {
            Some(m) => if size < m {
                m as int
            } else {
                size
            },
            None => size,
        };
        let hi = match self.max_size.on(dim) {
            Some(m) => if lo > m {
                m as int
            } else {
                lo
            },
            None => lo,
        };
        if hi < 0 {
            0
        } else {
            hi
        }
    }

    /// The default layout.
    pub fn new(width: Size, height: Size) -> (r: Self)
        ensures
            r == (Layout { size: Axes { x: width, y: height }, ..Layout::spec_default() }),
    {
        Layout { size: Axes { x: width, y: height }, ..Default::default() }
    }

    /// This layout with the given margin.
    pub fn margin(self, insets: Insets) -> (r: Self)
        ensures
            r == (Layout { margin: insets, ..self }),
    {
        Layout { margin: insets, ..self }
    }

    /// This layout with the given padding.
    pub fn padding(self, insets: Insets) -> (r: Self)
        ensures
            r == (Layout { padding: insets, ..self }),
    {
        Layout { padding: insets, ..self }
    }

    /// This layout laid out vertically with the given cross-axis alignment.
    pub fn vertical(self, align: Align) -> (r: Self)
        ensures
            r == (Layout { direction: Direction::Vertical(align), ..self }),
    {
        Layout { direction: Direction::Vertical(align), ..self }
    }

    /// This layout laid out horizontally with the given cross-axis alignment.
    pub fn horizontal(self, align: Align) -> (r: Self)
        ensures
            r == (Layout { direction: Direction::Horizontal(align), ..self }),
    {
        Layout { direction: Direction::Horizontal(align), ..self }
    }

    /// This layout with the given gap between children.
    pub fn gap(self, gap: Gap) -> (r: Self)
        ensures
            r == (Layout { gap: gap, ..self }),
    {
        Layout { gap: gap, ..self }
    }

    /// This layout with an upper width bound.
    pub fn max_width(self, max: i32) -> (r: Self)
        ensures
            r == (Layout { max_size: self.max_size.with(0, Some(max)), ..self }),
    {
        let mut l = self;
        l.max_size.set(0, Some(max));
        l
    }

    /// This layout with an upper height bound.
    pub fn max_height(self, max: i32) -> (r: Self)
        ensures
            r == (Layout { max_size: self.max_size.with(1, Some(max)), ..self }),
    {
        let mut l = self;
        l.max_size.set(1, Some(max));
        l
    }

    /// This layout with a lower width bound.
    pub fn min_width(self, min: i32) -> (r: Self)
        ensures
            r == (Layout { min_size: self.min_size.with(0, Some(min)), ..self }),
    {
        let mut l = self;
        l.min_size.set(0, Some(min));
        l
    }

    /// This layout with a lower height bound.
    pub fn min_height(self, min: i32) -> (r: Self)
        ensures
            r == (Layout { min_size: self.min_size.with(1, Some(min)), ..self }),
    {
        let mut l = self;
        l.min_size.set(1, Some(min));
        l
    }

    /// Clamp a computed size on axis `dim` to this node's bounds.
    pub fn clip_size(&self, dim: usize, size: i32) -> (r: i32)
        requires
            dim < 2,
        ensures
            r as int == self.spec_clip(dim as int, size as int),
    {
        let mut clipped = size;
        if let Some(min) = *self.min_size.get(dim) {
            if clipped < min {
                clipped = min;
            }
        }
        if let Some(max) = *self.max_size.get(dim) {
            if clipped > max {
                clipped = max;
            }
        }
        if clipped < 0 {
            clipped = 0;
        }
        clipped
    }

    /// Clamp an already-saturated mathematical size on axis `dim`: the same
    /// bounds applied to the clamped value.
    pub open spec fn clip_sat(self, dim: int, size: int) -> int {
        self.spec_clip(dim, sat32(size))
    }
}

impl Default for Layout {
    /// Fit on both axes, no bounds, no insets, vertical start-aligned, no gap.
    fn default() -> (r: Self)
        ensures
            r == Layout::spec_default(),
    {
        Layout {
            size: Axes { x: Size::Fit, y: Size::Fit },
            min_size: Axes { x: None, y: None },
            max_size: Axes { x: None, y: None },
            margin: Default::default(),
            padding: Default::default(),
            direction: Default::default(),
            gap: Default::default(),
        }
    }
}

} // verus!
