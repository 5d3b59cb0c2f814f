//! Gap between children in a layout.

use vstd::prelude::*;

verus! {

/// The space between consecutive children along the layout direction.
#[derive(Clone, Copy, Debug)]
pub enum Gap {
    /// Fixed pixel gap.
    Fixed(i32),
    /// The same gap between all children, chosen to fill the parent.
    Auto,
}

impl Gap {
    /// The gap every layout starts from.
    pub open spec fn spec_default() -> Gap {
        Gap::Fixed(0)
    }
}

impl Default for Gap {
    /// No gap.
    fn default() -> (r: Self)
        ensures
            r == Gap::spec_default(),
    {
        Gap::Fixed(0)
    }
}

} // verus!
