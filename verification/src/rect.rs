//! Computed size and positions for a layout element.

use vstd::prelude::*;

use crate::axes::Axes;

verus! {

/// The solved geometry of one node: size and position per axis, in integer
/// pixels. Fully overwritten by every solve.
#[derive(Clone, Copy, Debug)]
pub struct Rect {
    pub size: Axes<i32>,
    pub position: Axes<i32>,
}

impl Rect {
    /// The all-zero rectangle every slot starts from.
    pub open spec fn spec_default() -> Rect {
        Rect { size: Axes { x: 0, y: 0 }, position: Axes { x: 0, y: 0 } }
    }

    /// This rectangle with its size on axis `dim` replaced.
    pub open spec fn with_size(self, dim: int, v: int) -> Rect {
        Rect { size: self.size.with(dim, v as i32), ..self }
    }

    /// This rectangle with its position on axis `dim` replaced.
    pub open spec fn with_position(self, dim: int, v: int) -> Rect {
        Rect { position: self.position.with(dim, v as i32), ..self }
    }

    pub fn width(&self) -> (r: i32)
        ensures
            r == self.size.x,
    {
        self.size.x
    }

    pub fn height(&self) -> (r: i32)
        ensures
            r == self.size.y,
    {
        self.size.y
    }

    pub fn x(&self) -> (r: i32)
        ensures
            r == self.position.x,
    {
        self.position.x
    }

    pub fn y(&self) -> (r: i32)
        ensures
            r == self.position.y,
    {
        self.position.y
    }
}

impl Default for Rect {
    /// The zero rectangle.
    fn default() -> (r: Self)
        ensures
            r == Rect::spec_default(),
    {
        Rect { size: Axes { x: 0, y: 0 }, position: Axes { x: 0, y: 0 } }
    }
}

} // verus!
