//! Size constraints.

use vstd::prelude::*;

verus! {

/// The sizing policy of a node on one axis. Fractions are fixed-point
/// thousandths: a value of [`crate::num::FRAC_ONE`] stands for one whole
/// unit (one share for `Expand`, the full parent space for `Percent`).
#[derive(Clone, Copy, Debug)]
pub enum Size {
    /// Fit content.
    Fit,
    /// Fixed pixel size.
    Fixed(i32),
    /// Expand to a fraction of the available space, in thousandths of a share.
    Expand(u32),
    /// Fraction of the parent element's inner space, in thousandths.
    Percent(u32),
}

impl Size {
    /// The policy every axis starts from.
    pub open spec fn spec_default() -> Size {
        Size::Fit
    }
}

impl Default for Size {
    /// Fit content.
    fn default() -> (r: Self)
        ensures
            r == Size::spec_default(),
    {
        Size::Fit
    }
}

} // verus!
