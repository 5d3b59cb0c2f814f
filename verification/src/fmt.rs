//! Formatting utilities.

use vstd::prelude::*;

verus! {

/// The indentation for a nesting depth: two spaces per level.
pub open spec fn spec_indent(depth: int) -> Seq<u8> {
    Seq::new((2 * depth) as nat, |i: int| 32u8)
}

/// The indentation bytes corresponding to the given depth.
pub fn format_indent(depth: usize) -> (r: Vec<u8>)
    ensures
        r@ == spec_indent(depth as int),
{
    let mut out: Vec<u8> = Vec::new();
    let mut k: usize = 0;
    while k < depth
        invariant
            k <= depth,
            out@ == spec_indent(k as int),
        decreases depth - k,
    {
        out.push(32);
        out.push(32);
        proof {
            assert(out@ =~= spec_indent(k + 1 as int));
        }
        k = k + 1;
    }
    out
}

} // verus!
