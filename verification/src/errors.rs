//! Errors the engine reports.

use vstd::prelude::*;

verus! {

/// An operation was rejected; the engine's state is unchanged.
#[derive(Clone, Copy, Debug, PartialEq, Eq, Structural)]
pub enum UiError {
    /// A node id was out of range.
    InvalidNodeId,
    /// A style property id lies outside the closed property set.
    UnknownStyleProperty,
}

} // verus!
