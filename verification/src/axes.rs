//! A pair of values, one per axis of the box model.

use vstd::prelude::*;

verus! {

/// One value per axis: `x` is the width axis (dimension `0`), `y` the height
/// axis (dimension `1`).
#[derive(Clone, Copy, Debug)]
pub struct Axes<T> {
    pub x: T,
    pub y: T,
}

impl<T> Axes<T> {
    /// The value on axis `dim` (`0` for x, `1` for y).
    pub open spec fn on(self, dim: int) -> T {
        if dim == 0 {
            self.x
        } else {
            self.y
        }
    }

    /// The pair with the value on axis `dim` replaced.
    pub open spec fn with(self, dim: int, v: T) -> Axes<T> {
        if dim == 0 {
            Axes { x: v, ..self }
        } else {
            Axes { y: v, ..self }
        }
    }

    /// Read the value on axis `dim`.
    pub fn get(&self, dim: usize) -> (r: &T)
        requires
            dim < 2,
        ensures
            *r == self.on(dim as int),
    {
        if dim == 0 {
            &self.x
        } else {
            &self.y
        }
    }

    /// Replace the value on axis `dim`.
    pub fn set(&mut self, dim: usize, v: T)
        requires
            dim < 2,
        ensures
            *final(self) == old(self).with(dim as int, v),
    {
        if dim == 0 {
            self.x = v;
        } else {
            self.y = v;
        }
    }
}

} // verus!
