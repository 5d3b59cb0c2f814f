//! The layout solver's per-node passes.
//!
//! Each pass reads the layout rules and rewrites the computed rectangles of
//! one node and/or its direct children. The recursive drivers that run them
//! over whole trees live in [`crate::compute`].

use vstd::prelude::*;

use crate::axes::Axes;
use crate::direction::{Align, Direction};
use crate::gap::Gap;
use crate::insets::Insets;
use crate::layout::Layout;
use crate::num::{add_sat, clamp32, div_count_trunc, frac_of, mul_count_sat, sat32, sub_sat,
    trunc_div, FRAC_ONE};
use crate::rect::Rect;
use crate::size::Size;

verus! {

/// The three parallel arrays agree in length and every child index is in
/// bounds.
pub open spec fn state_ok(layouts: Seq<Layout>, rects: Seq<Rect>, children: Seq<Vec<usize>>) -> bool {
    &&& layouts.len() == rects.len()
    &&& children.len() == rects.len()
    &&& forall|i: int, k: int|
        0 <= i < children.len() && 0 <= k < children[i]@.len() ==> (#[trigger] children[i]@[k])
            < children.len()
}

/// Between two rectangle arrays of one length, every slot is unchanged, or
/// changed only in its size on axis `dim`, to a non-negative value.
pub open spec fn writes_nonneg(a: Seq<Rect>, b: Seq<Rect>, dim: int) -> bool {
    &&& a.len() == b.len()
    &&& forall|j: int|
        0 <= j < a.len() ==> (#[trigger] b[j]) == a[j] || (b[j].position == a[j].position
            && b[j].size.on(1 - dim) == a[j].size.on(1 - dim) && b[j].size.on(dim) >= 0)
}

/// Unchanged-or-rewritten-non-negative composes.
pub proof fn lemma_writes_trans(a: Seq<Rect>, b: Seq<Rect>, c: Seq<Rect>, dim: int)
    requires
        writes_nonneg(a, b, dim),
        writes_nonneg(b, c, dim),
    ensures
        writes_nonneg(a, c, dim),
{
    assert forall|j: int|
        0 <= j < a.len() implies (#[trigger] c[j]) == a[j] || (c[j].position == a[j].position
            && c[j].size.on(1 - dim) == a[j].size.on(1 - dim) && c[j].size.on(dim) >= 0) by {
        assert(b[j] == a[j] || (b[j].position == a[j].position && b[j].size.on(1 - dim)
            == a[j].size.on(1 - dim) && b[j].size.on(dim) >= 0));
        assert(c[j] == b[j] || (c[j].position == b[j].position && c[j].size.on(1 - dim)
            == b[j].size.on(1 - dim) && c[j].size.on(dim) >= 0));
    }
}

/// `n - 1` for a child count, floored at zero.
pub open spec fn sub1(n: int) -> int {
    if n <= 0 {
        0
    } else {
        n - 1
    }
}

/// The node's own size update of the fixed pass: a `Fixed` policy pins the
/// size on this axis, clamped to the node's bounds; a `Fit` or `Expand`
/// policy starts the axis over at zero, for the grow pass to resolve, so
/// nothing of an earlier solve survives into the shares. A `Percent` node
/// keeps what its parent's pass assigned.
pub open spec fn fixed_node(layouts: Seq<Layout>, rects: Seq<Rect>, node: int, dim: int) -> Seq<
    Rect,
> {
    match layouts[node].size.on(dim) {
        Size::Fixed(s) => rects.update(
            node,
            rects[node].with_size(dim, layouts[node].spec_clip(dim, s as int)),
        ),
        Size::Fit => rects.update(node, rects[node].with_size(dim, 0)),
        Size::Expand(_) => rects.update(node, rects[node].with_size(dim, 0)),
        Size::Percent(_) => rects,
    }
}

/// The percent updates of the fixed pass over the first `k` children:
/// each `Percent` child receives its fraction of `space`, the parent's
/// already-resolved inner size, clamped to the child's bounds.
pub open spec fn fixed_percents(
    layouts: Seq<Layout>,
    rects: Seq<Rect>,
    children: Seq<Vec<usize>>,
    node: int,
    dim: int,
    space: int,
    k: int,
) -> Seq<Rect>
    decreases k,
{
    if k <= 0 {
        rects
    } else {
        let prev = fixed_percents(layouts, rects, children, node, dim, space, k - 1);
        let idx = children[node]@[k - 1] as int;
        match layouts[idx].size.on(dim) {
            Size::Percent(fr) => prev.update(
                idx,
                prev[idx].with_size(
                    dim,
                    layouts[idx].clip_sat(dim, trunc_div(space * fr, FRAC_ONE as int)),
                ),
            ),
            _ => prev,
        }
    }
}

/// The whole fixed pass at one node: the node's own `Fixed` size, then every
/// `Percent` child sized from the node's inner space.
pub open spec fn spec_fixed(
    layouts: Seq<Layout>,
    rects: Seq<Rect>,
    children: Seq<Vec<usize>>,
    node: int,
    dim: int,
) -> Seq<Rect> {
    let r1 = fixed_node(layouts, rects, node, dim);
    let space = sat32(
        r1[node].size.on(dim) - layouts[node].padding.start.on(dim) - layouts[node].padding.end.on(
            dim,
        ),
    );
    fixed_percents(layouts, r1, children, node, dim, space, children[node]@.len() as int)
}

/// Compute fixed & percent sizes for a node and its direct children along a
/// given dimension.
pub fn fixed(
    node: usize,
    rects: &mut Vec<Rect>,
    layouts: &Vec<Layout>,
    children: &Vec<Vec<usize>>,
    dim: usize,
)
    requires
        state_ok(layouts@, old(rects)@, children@),
        node < old(rects).len(),
        dim < 2,
    ensures
        final(rects)@ == spec_fixed(layouts@, old(rects)@, children@, node as int, dim as int),
        final(rects)@.len() == old(rects)@.len(),
{
    // 1. Set the current element's fixed size; fit and expand sizes start
    //    over at zero, for the grow pass to resolve
    match *layouts[node].size.get(dim) {
        Size::Fixed(s) => {
            let clipped = layouts[node].clip_size(dim, s);
            let mut r = rects[node];
            r.size.set(dim, clipped);
            rects[node] = r;
        },
        Size::Fit | Size::Expand(_) => {
            let mut r = rects[node];
            r.size.set(dim, 0);
            rects[node] = r;
        },
        Size::Percent(_) => {},
    }
    let ghost r1 = fixed_node(layouts@, old(rects)@, node as int, dim as int);
    assert(rects@ == r1);

    // 2. Compute percent sizes for children, from the node's inner space
    let ps = *layouts[node].padding.start.get(dim);
    let pe = *layouts[node].padding.end.get(dim);
    let space = clamp32(*rects[node].size.get(dim) as i64 - ps as i64 - pe as i64);

    let n = children[node].len();
    let mut k: usize = 0;
    while k < n
        invariant
            state_ok(layouts@, rects@, children@),
            node < rects@.len(),
            dim < 2,
            k <= n,
            n == children@[node as int].len(),
            rects@.len() == r1.len(),
            space as int == sat32(
                r1[node as int].size.on(dim as int) - layouts@[node as int].padding.start.on(
                    dim as int,
                ) - layouts@[node as int].padding.end.on(dim as int),
            ),
            rects@ == fixed_percents(
                layouts@,
                r1,
                children@,
                node as int,
                dim as int,
                space as int,
                k as int,
            ),
        decreases n - k,
    {
        let idx = children[node][k];
        if let Size::Percent(fr) = *layouts[idx].size.get(dim) {
            let v = frac_of(space, fr);
            let clipped = layouts[idx].clip_size(dim, v);
            let mut r = rects[idx];
            r.size.set(dim, clipped);
            rects[idx] = r;
        }
        k = k + 1;
    }
}

/// The fit total along the layout direction over the first `k` children: the
/// node's padding plus each child's margin-inclusive size, saturating at each
/// step.
pub open spec fn fit_total(
    layouts: Seq<Layout>,
    rects: Seq<Rect>,
    children: Seq<Vec<usize>>,
    node: int,
    dim: int,
    k: int,
) -> int
    decreases k,
{
    if k <= 0 {
        sat32(layouts[node].padding.start.on(dim) + layouts[node].padding.end.on(dim))
    } else {
        let prev = fit_total(layouts, rects, children, node, dim, k - 1);
        let idx = children[node]@[k - 1] as int;
        sat32(
            prev + sat32(
                layouts[idx].margin.start.on(dim) + rects[idx].size.on(dim)
                    + layouts[idx].margin.end.on(dim),
            ),
        )
    }
}

/// The fit pass along the layout direction: padding plus the children's
/// margin-inclusive sizes, plus the fixed gaps between them, clamped to the
/// node's bounds.
pub open spec fn spec_fit_along(
    layouts: Seq<Layout>,
    rects: Seq<Rect>,
    children: Seq<Vec<usize>>,
    node: int,
    dim: int,
) -> Seq<Rect> {
    let total = fit_total(layouts, rects, children, node, dim, children[node]@.len() as int);
    let with_gap = match layouts[node].gap {
        Gap::Fixed(g) => sat32(total + sat32(g * sub1(children[node]@.len() as int))),
        Gap::Auto => total,
    };
    rects.update(node, rects[node].with_size(dim, layouts[node].spec_clip(dim, with_gap)))
}

/// Compute a fit size for a node along the layout direction: children are
/// stacked on this axis, so their sizes add up.
pub fn fit_along(
    node: usize,
    rects: &mut Vec<Rect>,
    layouts: &Vec<Layout>,
    children: &Vec<Vec<usize>>,
    dim: usize,
)
    requires
        state_ok(layouts@, old(rects)@, children@),
        node < old(rects).len(),
        dim < 2,
    ensures
        final(rects)@ == spec_fit_along(layouts@, old(rects)@, children@, node as int, dim as int),
        final(rects)@.len() == old(rects)@.len(),
{
    // Start with self padding
    let ps = *layouts[node].padding.start.get(dim);
    let pe = *layouts[node].padding.end.get(dim);
    let mut total = clamp32(ps as i64 + pe as i64);

    let n = children[node].len();
    let mut k: usize = 0;
    while k < n
        invariant
            state_ok(layouts@, rects@, children@),
            node < rects@.len(),
            dim < 2,
            k <= n,
            n == children@[node as int].len(),
            total as int == fit_total(layouts@, rects@, children@, node as int, dim as int, k as int),
        decreases n - k,
    {
        let idx = children[node][k];
        // Add margin + size for each child
        let term = clamp32(
            *layouts[idx].margin.start.get(dim) as i64 + *rects[idx].size.get(dim) as i64
                + *layouts[idx].margin.end.get(dim) as i64,
        );
        total = add_sat(total, term);
        k = k + 1;
    }

    // Add gaps if needed
    if let Gap::Fixed(g) = layouts[node].gap {
        let gaps = mul_count_sat(g, if n == 0 { 0 } else { n - 1 });
        total = add_sat(total, gaps);
    }

    // Set the size, clipped to min/max
    let clipped = layouts[node].clip_size(dim, total);
    let mut r = rects[node];
    r.size.set(dim, clipped);
    rects[node] = r;
}

/// The largest margin-inclusive child size across the layout direction, over
/// the first `k` children.
pub open spec fn fit_max(
    layouts: Seq<Layout>,
    rects: Seq<Rect>,
    children: Seq<Vec<usize>>,
    node: int,
    dim: int,
    k: int,
) -> int
    decreases k,
{
    if k <= 0 {
        0
    } else {
        let prev = fit_max(layouts, rects, children, node, dim, k - 1);
        let idx = children[node]@[k - 1] as int;
        let term = sat32(
            layouts[idx].margin.start.on(dim) + rects[idx].size.on(dim) + layouts[idx].margin.end.on(
                dim,
            ),
        );
        if term > prev {
            term
        } else {
            prev
        }
    }
}

/// The fit pass across the layout direction: padding plus the largest
/// margin-inclusive child size, clamped to the node's bounds.
pub open spec fn spec_fit_across(
    layouts: Seq<Layout>,
    rects: Seq<Rect>,
    children: Seq<Vec<usize>>,
    node: int,
    dim: int,
) -> Seq<Rect> {
    let pads = sat32(layouts[node].padding.start.on(dim) + layouts[node].padding.end.on(dim));
    let total = sat32(pads + fit_max(layouts, rects, children, node, dim, children[node]@.len() as int));
    rects.update(node, rects[node].with_size(dim, layouts[node].spec_clip(dim, total)))
}

/// Compute a fit size for a node across the layout direction: children sit
/// side by side on this axis, so the largest one decides.
pub fn fit_across(
    node: usize,
    rects: &mut Vec<Rect>,
    layouts: &Vec<Layout>,
    children: &Vec<Vec<usize>>,
    dim: usize,
)
    requires
        state_ok(layouts@, old(rects)@, children@),
        node < old(rects).len(),
        dim < 2,
    ensures
        final(rects)@ == spec_fit_across(layouts@, old(rects)@, children@, node as int, dim as int),
        final(rects)@.len() == old(rects)@.len(),
{
    let ps = *layouts[node].padding.start.get(dim);
    let pe = *layouts[node].padding.end.get(dim);
    let pads = clamp32(ps as i64 + pe as i64);

    // Compute the max margin-inclusive size of children along this dimension
    let n = children[node].len();
    let mut max_child: i32 = 0;
    let mut k: usize = 0;
    while k < n
        invariant
            state_ok(layouts@, rects@, children@),
            node < rects@.len(),
            dim < 2,
            k <= n,
            n == children@[node as int].len(),
            max_child as int == fit_max(layouts@, rects@, children@, node as int, dim as int, k as int),
        decreases n - k,
    {
        let idx = children[node][k];
        let term = clamp32(
            *layouts[idx].margin.start.get(dim) as i64 + *rects[idx].size.get(dim) as i64
                + *layouts[idx].margin.end.get(dim) as i64,
        );
        if term > max_child {
            max_child = term;
        }
        k = k + 1;
    }

    // Set the size, clipped to min/max
    let total = add_sat(pads, max_child);
    let clipped = layouts[node].clip_size(dim, total);
    let mut r = rects[node];
    r.size.set(dim, clipped);
    rects[node] = r;
}

/// The expand pass across the layout direction over the first `k` children:
/// every `Expand` child fills the parent's inner space minus its own margins,
/// clamped to its bounds.
pub open spec fn expand_across_fold(
    layouts: Seq<Layout>,
    rects: Seq<Rect>,
    children: Seq<Vec<usize>>,
    node: int,
    dim: int,
    space: int,
    k: int,
) -> Seq<Rect>
    decreases k,
{
    if k <= 0 {
        rects
    } else {
        let prev = expand_across_fold(layouts, rects, children, node, dim, space, k - 1);
        let idx = children[node]@[k - 1] as int;
        match layouts[idx].size.on(dim) {
            Size::Expand(_) => prev.update(
                idx,
                prev[idx].with_size(
                    dim,
                    layouts[idx].clip_sat(
                        dim,
                        space - layouts[idx].margin.start.on(dim) - layouts[idx].margin.end.on(dim),
                    ),
                ),
            ),
            _ => prev,
        }
    }
}

/// The whole expand pass across the layout direction.
pub open spec fn spec_expand_across(
    layouts: Seq<Layout>,
    rects: Seq<Rect>,
    children: Seq<Vec<usize>>,
    node: int,
    dim: int,
) -> Seq<Rect> {
    let space = sat32(
        rects[node].size.on(dim) - layouts[node].padding.start.on(dim)
            - layouts[node].padding.end.on(dim),
    );
    expand_across_fold(layouts, rects, children, node, dim, space, children[node]@.len() as int)
}

/// Expand a node's expandable children across the layout direction: there is
/// only one lane, so each fills the available cross-space on its own.
pub fn expand_across(
    node: usize,
    rects: &mut Vec<Rect>,
    layouts: &Vec<Layout>,
    children: &Vec<Vec<usize>>,
    dim: usize,
)
    requires
        state_ok(layouts@, old(rects)@, children@),
        node < old(rects).len(),
        dim < 2,
    ensures
        final(rects)@ == spec_expand_across(
            layouts@,
            old(rects)@,
            children@,
            node as int,
            dim as int,
        ),
        final(rects)@.len() == old(rects)@.len(),
{
    let ps = *layouts[node].padding.start.get(dim);
    let pe = *layouts[node].padding.end.get(dim);
    let space = clamp32(*rects[node].size.get(dim) as i64 - ps as i64 - pe as i64);

    let n = children[node].len();
    let mut k: usize = 0;
    while k < n
        invariant
            state_ok(layouts@, rects@, children@),
            node < rects@.len(),
            dim < 2,
            k <= n,
            n == children@[node as int].len(),
            rects@ == expand_across_fold(
                layouts@,
                old(rects)@,
                children@,
                node as int,
                dim as int,
                space as int,
                k as int,
            ),
        decreases n - k,
    {
        let idx = children[node][k];
        if let Size::Expand(_) = *layouts[idx].size.get(dim) {
            let v = clamp32(
                space as i64 - *layouts[idx].margin.start.get(dim) as i64 - *layouts[
                    idx
                ].margin.end.get(dim) as i64,
            );
            let clipped = layouts[idx].clip_size(dim, v);
            let mut r = rects[idx];
            r.size.set(dim, clipped);
            rects[idx] = r;
        }
        k = k + 1;
    }
}

/// The weight of an `Expand` policy; zero for every other policy.
pub open spec fn fraction_of(s: Size) -> int {
    match s {
        Size::Expand(fr) => fr as int,
        _ => 0,
    }
}

/// Clamp a mathematical integer into the `u64` range.
pub open spec fn sat_u64(x: int) -> int {
    if x < 0 {
        0
    } else if x > u64::MAX as int {
        u64::MAX as int
    } else {
        x
    }
}

/// The gather step of the expand pass over the first `k` children: the total
/// expandable weight, the expandable children in child-list order, and the
/// space the other children and all margins already occupy.
pub open spec fn expand_gather(
    layouts: Seq<Layout>,
    rects: Seq<Rect>,
    children: Seq<Vec<usize>>,
    node: int,
    dim: int,
    k: int,
) -> (int, Seq<usize>, int)
    decreases k,
{
    if k <= 0 {
        (0, Seq::empty(), 0)
    } else {
        let (t, ix, oc) = expand_gather(layouts, rects, children, node, dim, k - 1);
        let idx = children[node]@[k - 1];
        let oc1 = sat32(
            oc + layouts[idx as int].margin.start.on(dim) + layouts[idx as int].margin.end.on(dim),
        );
        match layouts[idx as int].size.on(dim) {
            Size::Expand(fr) => (sat_u64(t + fr), ix.push(idx), oc1),
            _ => (t, ix, sat32(oc1 + rects[idx as int].size.on(dim))),
        }
    }
}

/// One round of share assignment over the first `k` expandable children: each
/// grows by its weight's share of the remaining space.
pub open spec fn assign_fold(
    layouts: Seq<Layout>,
    rects: Seq<Rect>,
    dim: int,
    indexes: Seq<usize>,
    remaining: int,
    total: int,
    k: int,
) -> Seq<Rect>
    decreases k,
{
    if k <= 0 {
        rects
    } else {
        let prev = assign_fold(layouts, rects, dim, indexes, remaining, total, k - 1);
        let idx = indexes[k - 1] as int;
        let fr = fraction_of(layouts[idx].size.on(dim));
        let share = if total == 0 {
            0int
        } else {
            sat32(crate::num::round_div(remaining * fr, total))
        };
        prev.update(idx, prev[idx].with_size(dim, sat32(prev[idx].size.on(dim) + share)))
    }
}

/// One round of clamping from position `i` on: a child whose assigned size
/// violates its bounds is set to the clamped size, leaves the expandable set,
/// returns the difference to the pool, and its weight leaves the total.
/// Returns the rectangles, the surviving expandable children, the remaining
/// total weight and the pool.
pub open spec fn clip_fold(
    layouts: Seq<Layout>,
    rects: Seq<Rect>,
    dim: int,
    indexes: Seq<usize>,
    total: int,
    remaining: int,
    i: int,
) -> (Seq<Rect>, Seq<usize>, int, int)
    decreases indexes.len() - i,
{
    if i < 0 || i >= indexes.len() {
        (rects, indexes, total, remaining)
    } else {
        let idx = indexes[i] as int;
        let size = rects[idx].size.on(dim) as int;
        let clipped = layouts[idx].spec_clip(dim, size);
        if clipped != size {
            let r1 = rects.update(idx, rects[idx].with_size(dim, clipped));
            let rem1 = sat32(remaining + size - clipped);
            let t1 = sat_u64(total - fraction_of(layouts[idx].size.on(dim)));
            let ix1 = indexes.update(i, indexes.last()).drop_last();
            clip_fold(layouts, r1, dim, ix1, t1, rem1, i)
        } else {
            clip_fold(layouts, rects, dim, indexes, total, remaining, i + 1)
        }
    }
}

/// The iterative distribution of the expand pass: assign shares, clamp, and
/// redistribute what clamping returned, until the pool is empty or no
/// expandable child is left.
pub open spec fn expand_loop(
    layouts: Seq<Layout>,
    rects: Seq<Rect>,
    dim: int,
    indexes: Seq<usize>,
    total: int,
    remaining: int,
    fuel: nat,
) -> Seq<Rect>
    decreases fuel,
{
    if fuel == 0 || indexes.len() == 0 || remaining == 0 {
        rects
    } else {
        let r1 = assign_fold(layouts, rects, dim, indexes, remaining, total, indexes.len() as int);
        let (r2, ix2, t2, rem2) = clip_fold(layouts, r1, dim, indexes, total, 0, 0);
        expand_loop(layouts, r2, dim, ix2, t2, rem2, (fuel - 1) as nat)
    }
}

/// The whole expand pass along the layout direction at one node.
pub open spec fn spec_expand_along(
    layouts: Seq<Layout>,
    rects: Seq<Rect>,
    children: Seq<Vec<usize>>,
    node: int,
    dim: int,
) -> Seq<Rect> {
    let (total, indexes, occupied) = expand_gather(
        layouts,
        rects,
        children,
        node,
        dim,
        children[node]@.len() as int,
    );
    let gaps = match layouts[node].gap {
        Gap::Fixed(g) => sat32(g * sub1(children[node]@.len() as int)),
        Gap::Auto => 0int,
    };
    let remaining = sat32(
        rects[node].size.on(dim) - layouts[node].padding.start.on(dim)
            - layouts[node].padding.end.on(dim) - gaps - occupied,
    );
    expand_loop(layouts, rects, dim, indexes, total, remaining, (indexes.len() + 1) as nat)
}

/// Clamping never grows the expandable set, and it shrinks it whenever the
/// pool changes.
proof fn lemma_clip_fold_shrinks(
    layouts: Seq<Layout>,
    rects: Seq<Rect>,
    dim: int,
    indexes: Seq<usize>,
    total: int,
    remaining: int,
    i: int,
)
    ensures
        clip_fold(layouts, rects, dim, indexes, total, remaining, i).1.len() <= indexes.len(),
        clip_fold(layouts, rects, dim, indexes, total, remaining, i).3 != remaining ==> clip_fold(
            layouts,
            rects,
            dim,
            indexes,
            total,
            remaining,
            i,
        ).1.len() < indexes.len(),
    decreases indexes.len() - i,
{
    if i < 0 || i >= indexes.len() {
    } else {
        let idx = indexes[i] as int;
        let size = rects[idx].size.on(dim) as int;
        let clipped = layouts[idx].spec_clip(dim, size);
        if clipped != size {
            let r1 = rects.update(idx, rects[idx].with_size(dim, clipped));
            let rem1 = sat32(remaining + size - clipped);
            let t1 = sat_u64(total - fraction_of(layouts[idx].size.on(dim)));
            let ix1 = indexes.update(i, indexes.last()).drop_last();
            lemma_clip_fold_shrinks(layouts, r1, dim, ix1, t1, rem1, i);
        } else {
            lemma_clip_fold_shrinks(layouts, rects, dim, indexes, total, remaining, i + 1);
        }
    }
}

/// Any fuel past the number of expandable children gives the distribution
/// loop the same result.
proof fn lemma_expand_loop_fuel(
    layouts: Seq<Layout>,
    rects: Seq<Rect>,
    dim: int,
    indexes: Seq<usize>,
    total: int,
    remaining: int,
    f1: nat,
    f2: nat,
)
    requires
        f1 >= indexes.len() + 1,
        f2 >= indexes.len() + 1,
    ensures
        expand_loop(layouts, rects, dim, indexes, total, remaining, f1) == expand_loop(
            layouts,
            rects,
            dim,
            indexes,
            total,
            remaining,
            f2,
        ),
    decreases f1 + f2,
{
    if indexes.len() == 0 || remaining == 0 {
    } else {
        let r1 = assign_fold(layouts, rects, dim, indexes, remaining, total, indexes.len() as int);
        let (r2, ix2, t2, rem2) = clip_fold(layouts, r1, dim, indexes, total, 0, 0);
        lemma_clip_fold_shrinks(layouts, r1, dim, indexes, total, 0, 0);
        if rem2 == 0 {
            assert(expand_loop(layouts, r2, dim, ix2, t2, rem2, (f1 - 1) as nat) == r2);
            assert(expand_loop(layouts, r2, dim, ix2, t2, rem2, (f2 - 1) as nat) == r2);
        } else {
            lemma_expand_loop_fuel(
                layouts,
                r2,
                dim,
                ix2,
                t2,
                rem2,
                (f1 - 1) as nat,
                (f2 - 1) as nat,
            );
        }
    }
}

/// Compute the expand sizes for a node's children along the layout direction.
///
/// The space remaining after all fixed, percent and fit children and all
/// margins and gaps is shared among the expandable children in proportion to
/// their weights; a child whose share violates its own bounds keeps the
/// clamped size, and the difference is redistributed among the rest.
pub fn expand_along(
    node: usize,
    rects: &mut Vec<Rect>,
    layouts: &Vec<Layout>,
    children: &Vec<Vec<usize>>,
    dim: usize,
)
    requires
        state_ok(layouts@, old(rects)@, children@),
        node < old(rects).len(),
        dim < 2,
    ensures
        final(rects)@ == spec_expand_along(
            layouts@,
            old(rects)@,
            children@,
            node as int,
            dim as int,
        ),
        final(rects)@.len() == old(rects)@.len(),
{
    let mut total: u64 = 0;
    let mut indexes: Vec<usize> = Vec::new();
    let mut occupied: i32 = 0;

    // 1. Compute total shared weight & expandable children
    let n = children[node].len();
    let mut k: usize = 0;
    while k < n
        invariant
            state_ok(layouts@, rects@, children@),
            node < rects@.len(),
            dim < 2,
            k <= n,
            n == children@[node as int]@.len(),
            rects@ == old(rects)@,
            forall|j: int|
                0 <= j < indexes@.len() ==> (#[trigger] indexes@[j]) < rects@.len()
                    && layouts@[indexes@[j] as int].size.on(dim as int) is Expand,
            (total as int, indexes@, occupied as int) == expand_gather(
                layouts@,
                rects@,
                children@,
                node as int,
                dim as int,
                k as int,
            ),
        decreases n - k,
    {
        let idx = children[node][k];

        // Add margins
        occupied = clamp32(
            occupied as i64 + *layouts[idx].margin.start.get(dim) as i64 + *layouts[
                idx
            ].margin.end.get(dim) as i64,
        );

        // Track expandable, or add occupied size
        match *layouts[idx].size.get(dim) {
            Size::Expand(fr) => {
                total = total.saturating_add(fr as u64);
                indexes.push(idx);
            },
            _ => {
                occupied = add_sat(occupied, *rects[idx].size.get(dim));
            },
        }
        k = k + 1;
    }

    let gaps: i32 = match layouts[node].gap {
        Gap::Fixed(g) => mul_count_sat(g, if n == 0 { 0 } else { n - 1 }),
        Gap::Auto => 0,
    };

    let mut remaining: i32 = clamp32(
        *rects[node].size.get(dim) as i64 - *layouts[node].padding.start.get(dim) as i64 - *layouts[
            node
        ].padding.end.get(dim) as i64 - gaps as i64 - occupied as i64,
    );

    let ghost goal = spec_expand_along(layouts@, old(rects)@, children@, node as int, dim as int);
    assert(goal == expand_loop(
        layouts@,
        rects@,
        dim as int,
        indexes@,
        total as int,
        remaining as int,
        (indexes@.len() + 1) as nat,
    ));

    while indexes.len() != 0 && remaining != 0
        invariant
            state_ok(layouts@, rects@, children@),
            node < rects@.len(),
            dim < 2,
            rects@.len() == old(rects)@.len(),
            forall|j: int|
                0 <= j < indexes@.len() ==> (#[trigger] indexes@[j]) < rects@.len()
                    && layouts@[indexes@[j] as int].size.on(dim as int) is Expand,
            goal == expand_loop(
                layouts@,
                rects@,
                dim as int,
                indexes@,
                total as int,
                remaining as int,
                (indexes@.len() + 1) as nat,
            ),
        decreases (if remaining != 0 { 1int } else { 0int }), indexes@.len(),
    {
        let ghost len0 = indexes@.len();
        let ghost r_in = rects@;
        let ghost ix_in = indexes@;
        let ghost t_in = total as int;
        let ghost rem_in = remaining as int;

        // 1. Attribute the pool to the expandable children by weight
        let m = indexes.len();
        let mut i: usize = 0;
        while i < m
            invariant
                state_ok(layouts@, rects@, children@),
                dim < 2,
                i <= m,
                m == indexes@.len(),
                indexes@ == ix_in,
                total as int == t_in,
                remaining as int == rem_in,
                rects@.len() == r_in.len(),
                forall|j: int|
                    0 <= j < indexes@.len() ==> (#[trigger] indexes@[j]) < rects@.len()
                        && layouts@[indexes@[j] as int].size.on(dim as int) is Expand,
                rects@ == assign_fold(layouts@, r_in, dim as int, ix_in, rem_in, t_in, i as int),
            decreases m - i,
        {
            let idx = indexes[i];
            let fr: u32 = match *layouts[idx].size.get(dim) {
                Size::Expand(fr) => fr,
                _ => {
                    proof {
                        assert(false);
                    }
                    0
                },
            };
            let share = crate::num::share_of(remaining, fr, total);
            let cur = *rects[idx].size.get(dim);
            let mut r = rects[idx];
            r.size.set(dim, add_sat(cur, share));
            rects[idx] = r;
            proof {
                let prev = assign_fold(layouts@, r_in, dim as int, ix_in, rem_in, t_in, i as int);
                assert(assign_fold(layouts@, r_in, dim as int, ix_in, rem_in, t_in, i + 1 as int)
                    == prev.update(
                    idx as int,
                    prev[idx as int].with_size(
                        dim as int,
                        sat32(
                            prev[idx as int].size.on(dim as int) + (if t_in == 0 {
                                0int
                            } else {
                                sat32(crate::num::round_div(rem_in * fraction_of(layouts@[idx as int].size.on(dim as int)), t_in))
                            }),
                        ),
                    ),
                ));
                assert(rects@ == assign_fold(
                    layouts@,
                    r_in,
                    dim as int,
                    ix_in,
                    rem_in,
                    t_in,
                    i + 1 as int,
                ));
            }
            i = i + 1;
        }

        remaining = 0;

        // 2. Clip to min/max bounds, and evict children that reached a limit
        let ghost r_mid = rects@;
        let mut j: usize = 0;
        while j < indexes.len()
            invariant
                state_ok(layouts@, rects@, children@),
                dim < 2,
                j <= indexes@.len(),
                rects@.len() == r_in.len(),
                forall|jj: int|
                    0 <= jj < indexes@.len() ==> (#[trigger] indexes@[jj]) < rects@.len()
                        && layouts@[indexes@[jj] as int].size.on(dim as int) is Expand,
                remaining != 0 ==> indexes@.len() < len0,
                indexes@.len() <= len0,
                clip_fold(
                    layouts@,
                    rects@,
                    dim as int,
                    indexes@,
                    total as int,
                    remaining as int,
                    j as int,
                ) == clip_fold(layouts@, r_mid, dim as int, ix_in, t_in, 0, 0),
            decreases indexes@.len() - j,
        {
            let idx = indexes[j];
            let size = *rects[idx].size.get(dim);
            let clipped = layouts[idx].clip_size(dim, size);
            if size != clipped {
                let mut r = rects[idx];
                r.size.set(dim, clipped);
                rects[idx] = r;
                remaining = clamp32(remaining as i64 + size as i64 - clipped as i64);
                indexes.swap_remove(j);
                let fr: u32 = match *layouts[idx].size.get(dim) {
                    Size::Expand(fr) => fr,
                    _ => {
                        proof {
                            assert(false);
                        }
                        0
                    },
                };
                total = total.saturating_sub(fr as u64);
            } else {
                j = j + 1;
            }
        }

        proof {
            let step = clip_fold(layouts@, r_mid, dim as int, ix_in, t_in, 0, 0);
            assert((rects@, indexes@, total as int, remaining as int) == step);
            assert(expand_loop(layouts@, r_in, dim as int, ix_in, t_in, rem_in, (len0 + 1) as nat)
                == expand_loop(
                layouts@,
                rects@,
                dim as int,
                indexes@,
                total as int,
                remaining as int,
                len0 as nat,
            ));
            if remaining != 0 {
                lemma_expand_loop_fuel(
                    layouts@,
                    rects@,
                    dim as int,
                    indexes@,
                    total as int,
                    remaining as int,
                    len0 as nat,
                    (indexes@.len() + 1) as nat,
                );
            }
        }
    }
}

/// The position of a child across the layout direction of its parent, from
/// the cross-axis alignment: `Start` sticks to the parent's padded start,
/// `Center` centres the margin-inclusive child in the padded span, `End`
/// sticks to the padded end.
pub open spec fn spec_position_across(
    align: Align,
    parent_layout: Layout,
    parent_rect: Rect,
    child_layout: Layout,
    child_rect: Rect,
    dim: int,
) -> int {
    match align {
        Align::Start => sat32(
            parent_rect.position.on(dim) + parent_layout.padding.start.on(dim)
                + child_layout.margin.start.on(dim),
        ),
        Align::Center => {
            let span = sat32(
                parent_rect.size.on(dim) - parent_layout.padding.start.on(dim)
                    - parent_layout.padding.end.on(dim) - child_rect.size.on(dim)
                    - child_layout.margin.start.on(dim) - child_layout.margin.end.on(dim),
            );
            sat32(
                parent_rect.position.on(dim) + parent_layout.padding.start.on(dim)
                    + child_layout.margin.start.on(dim) + trunc_div(span, 2),
            )
        },
        Align::End => sat32(
            parent_rect.position.on(dim) + parent_rect.size.on(dim) - parent_layout.padding.end.on(
                dim,
            ) - child_layout.margin.end.on(dim) - child_rect.size.on(dim),
        ),
    }
}

/// Returns the position of a child element across the layout direction of its
/// parent, given the alignment.
pub fn position_across(
    align: Align,
    parent_layout: &Layout,
    parent_rect: &Rect,
    child_layout: &Layout,
    child_rect: &Rect,
    dim: usize,
) -> (r: i32)
    requires
        dim < 2,
    ensures
        r as int == spec_position_across(
            align,
            *parent_layout,
            *parent_rect,
            *child_layout,
            *child_rect,
            dim as int,
        ),
{
    match align {
        // Stick to start: only parent padding & child margin
        Align::Start => clamp32(
            *parent_rect.position.get(dim) as i64 + *parent_layout.padding.start.get(dim) as i64
                + *child_layout.margin.start.get(dim) as i64,
        ),
        // Center: place the margin-inclusive child midway in the padded span
        Align::Center => {
            let span = clamp32(
                *parent_rect.size.get(dim) as i64 - *parent_layout.padding.start.get(dim) as i64
                    - *parent_layout.padding.end.get(dim) as i64 - *child_rect.size.get(
                    dim,
                ) as i64 - *child_layout.margin.start.get(dim) as i64 - *child_layout.margin.end.get(
                    dim,
                ) as i64,
            );
            let half = div_count_trunc(span, 2);
            clamp32(
                *parent_rect.position.get(dim) as i64 + *parent_layout.padding.start.get(
                    dim,
                ) as i64 + *child_layout.margin.start.get(dim) as i64 + half as i64,
            )
        },
        // Stick to end: only parent padding & child margin
        Align::End => clamp32(
            *parent_rect.position.get(dim) as i64 + *parent_rect.size.get(dim) as i64
                - *parent_layout.padding.end.get(dim) as i64 - *child_layout.margin.end.get(
                dim,
            ) as i64 - *child_rect.size.get(dim) as i64,
        ),
    }
}

/// The space left in the parent along the layout direction after the first
/// `k` children's margin-inclusive sizes: what an `Auto` gap distributes.
pub open spec fn auto_gap_remaining(
    layouts: Seq<Layout>,
    rects: Seq<Rect>,
    children: Seq<Vec<usize>>,
    node: int,
    dim: int,
    k: int,
) -> int
    decreases k,
{
    if k <= 0 {
        sat32(
            rects[node].size.on(dim) - layouts[node].padding.start.on(dim)
                - layouts[node].padding.end.on(dim),
        )
    } else {
        let prev = auto_gap_remaining(layouts, rects, children, node, dim, k - 1);
        let idx = children[node]@[k - 1] as int;
        sat32(
            prev - sat32(
                layouts[idx].margin.start.on(dim) + rects[idx].size.on(dim)
                    + layouts[idx].margin.end.on(dim),
            ),
        )
    }
}

/// The gap between consecutive children along the layout direction: the fixed
/// value, or for `Auto` the remaining space split evenly between the `n - 1`
/// gaps. With fewer than two children an `Auto` gap degenerates and is
/// treated as zero.
pub open spec fn spec_gap_along(
    layouts: Seq<Layout>,
    rects: Seq<Rect>,
    children: Seq<Vec<usize>>,
    node: int,
    dim: int,
) -> int {
    match layouts[node].gap {
        Gap::Fixed(g) => g as int,
        Gap::Auto => {
            let n = children[node]@.len() as int;
            if n >= 2 {
                trunc_div(auto_gap_remaining(layouts, rects, children, node, dim, n), n - 1)
            } else {
                0
            }
        },
    }
}

/// Returns the gap value between children in a layout, along the given
/// dimension.
fn gap_along(
    node: usize,
    rects: &Vec<Rect>,
    layouts: &Vec<Layout>,
    children: &Vec<Vec<usize>>,
    dim: usize,
) -> (r: i32)
    requires
        state_ok(layouts@, rects@, children@),
        node < rects.len(),
        dim < 2,
    ensures
        r as int == spec_gap_along(layouts@, rects@, children@, node as int, dim as int),
{
    match layouts[node].gap {
        Gap::Fixed(g) => g,
        Gap::Auto => {
            let mut remaining = clamp32(
                *rects[node].size.get(dim) as i64 - *layouts[node].padding.start.get(dim) as i64
                    - *layouts[node].padding.end.get(dim) as i64,
            );

            // Remove children sizes with their margins
            let n = children[node].len();
            let mut k: usize = 0;
            while k < n
                invariant
                    state_ok(layouts@, rects@, children@),
                    node < rects@.len(),
                    dim < 2,
                    k <= n,
                    n == children@[node as int]@.len(),
                    remaining as int == auto_gap_remaining(
                        layouts@,
                        rects@,
                        children@,
                        node as int,
                        dim as int,
                        k as int,
                    ),
                decreases n - k,
            {
                let idx = children[node][k];
                let term = clamp32(
                    *layouts[idx].margin.start.get(dim) as i64 + *rects[idx].size.get(dim) as i64
                        + *layouts[idx].margin.end.get(dim) as i64,
                );
                remaining = sub_sat(remaining, term);
                k = k + 1;
            }

            if n >= 2 {
                div_count_trunc(remaining, n - 1)
            } else {
                // Degenerate auto gap: fewer than two children leave nothing
                // to distribute
                0
            }
        },
    }
}

/// The percent updates only rewrite slots, non-negatively on the axis, and
/// every `Percent` child among the first `k` ends non-negative there.
proof fn lemma_fixed_percents_nonneg(
    layouts: Seq<Layout>,
    rects: Seq<Rect>,
    children: Seq<Vec<usize>>,
    node: int,
    dim: int,
    space: int,
    k: int,
)
    requires
        state_ok(layouts, rects, children),
        0 <= node < rects.len(),
        dim == 0 || dim == 1,
        0 <= k <= children[node]@.len(),
    ensures
        writes_nonneg(rects, fixed_percents(layouts, rects, children, node, dim, space, k), dim),
        forall|i: int|
            0 <= i < k && layouts[#[trigger] children[node]@[i] as int].size.on(dim) is Percent
                ==> fixed_percents(layouts, rects, children, node, dim, space, k)[children[node]@[i] as int].size.on(
                dim,
            ) >= 0,
    decreases k,
{
    if k > 0 {
        lemma_fixed_percents_nonneg(layouts, rects, children, node, dim, space, k - 1);
        let prev = fixed_percents(layouts, rects, children, node, dim, space, k - 1);
        let out = fixed_percents(layouts, rects, children, node, dim, space, k);
        assert(writes_nonneg(prev, out, dim));
        lemma_writes_trans(rects, prev, out, dim);
    }
}

/// The whole fixed pass only rewrites slots, non-negatively on the axis; the
/// node itself ends non-negative there unless its policy is `Percent`, and
/// every `Percent` child ends non-negative there.
pub proof fn lemma_fixed_nonneg(
    layouts: Seq<Layout>,
    rects: Seq<Rect>,
    children: Seq<Vec<usize>>,
    node: int,
    dim: int,
)
    requires
        state_ok(layouts, rects, children),
        0 <= node < rects.len(),
        dim == 0 || dim == 1,
    ensures
        writes_nonneg(rects, spec_fixed(layouts, rects, children, node, dim), dim),
        !(layouts[node].size.on(dim) is Percent) ==> spec_fixed(
            layouts,
            rects,
            children,
            node,
            dim,
        )[node].size.on(dim) >= 0,
        forall|i: int|
            0 <= i < children[node]@.len() && layouts[#[trigger] children[node]@[i] as int].size.on(
                dim,
            ) is Percent ==> spec_fixed(layouts, rects, children, node, dim)[children[node]@[i] as int].size.on(
                dim,
            ) >= 0,
{
    let r1 = fixed_node(layouts, rects, node, dim);
    assert(writes_nonneg(rects, r1, dim));
    let space = sat32(
        r1[node].size.on(dim) - layouts[node].padding.start.on(dim) - layouts[node].padding.end.on(
            dim,
        ),
    );
    lemma_fixed_percents_nonneg(layouts, r1, children, node, dim, space, children[node]@.len() as int);
    lemma_writes_trans(rects, r1, spec_fixed(layouts, rects, children, node, dim), dim);
}

/// The fit pass along the layout direction only rewrites the node,
/// non-negatively on the axis.
pub proof fn lemma_fit_along_nonneg(
    layouts: Seq<Layout>,
    rects: Seq<Rect>,
    children: Seq<Vec<usize>>,
    node: int,
    dim: int,
)
    requires
        0 <= node < rects.len(),
        dim == 0 || dim == 1,
    ensures
        writes_nonneg(rects, spec_fit_along(layouts, rects, children, node, dim), dim),
{
}

/// The fit pass across the layout direction only rewrites the node,
/// non-negatively on the axis.
pub proof fn lemma_fit_across_nonneg(
    layouts: Seq<Layout>,
    rects: Seq<Rect>,
    children: Seq<Vec<usize>>,
    node: int,
    dim: int,
)
    requires
        0 <= node < rects.len(),
        dim == 0 || dim == 1,
    ensures
        writes_nonneg(rects, spec_fit_across(layouts, rects, children, node, dim), dim),
{
}

/// The cross-axis expansion only rewrites children, non-negatively on the
/// axis.
proof fn lemma_expand_across_fold_nonneg(
    layouts: Seq<Layout>,
    rects: Seq<Rect>,
    children: Seq<Vec<usize>>,
    node: int,
    dim: int,
    space: int,
    k: int,
)
    requires
        state_ok(layouts, rects, children),
        0 <= node < rects.len(),
        dim == 0 || dim == 1,
        0 <= k <= children[node]@.len(),
    ensures
        writes_nonneg(rects, expand_across_fold(layouts, rects, children, node, dim, space, k), dim),
    decreases k,
{
    if k > 0 {
        lemma_expand_across_fold_nonneg(layouts, rects, children, node, dim, space, k - 1);
        let prev = expand_across_fold(layouts, rects, children, node, dim, space, k - 1);
        let out = expand_across_fold(layouts, rects, children, node, dim, space, k);
        assert(writes_nonneg(prev, out, dim));
        lemma_writes_trans(rects, prev, out, dim);
    }
}

/// The whole cross-axis expand pass only rewrites slots, non-negatively on
/// the axis.
pub proof fn lemma_expand_across_nonneg(
    layouts: Seq<Layout>,
    rects: Seq<Rect>,
    children: Seq<Vec<usize>>,
    node: int,
    dim: int,
)
    requires
        state_ok(layouts, rects, children),
        0 <= node < rects.len(),
        dim == 0 || dim == 1,
    ensures
        writes_nonneg(rects, spec_expand_across(layouts, rects, children, node, dim), dim),
{
    let space = sat32(
        rects[node].size.on(dim) - layouts[node].padding.start.on(dim)
            - layouts[node].padding.end.on(dim),
    );
    lemma_expand_across_fold_nonneg(
        layouts,
        rects,
        children,
        node,
        dim,
        space,
        children[node]@.len() as int,
    );
}

/// The members of the expandable set gathered at a node are slots of the
/// arena.
proof fn lemma_expand_gather_bounds(
    layouts: Seq<Layout>,
    rects: Seq<Rect>,
    children: Seq<Vec<usize>>,
    node: int,
    dim: int,
    k: int,
)
    requires
        state_ok(layouts, rects, children),
        0 <= node < rects.len(),
        0 <= k <= children[node]@.len(),
    ensures
        forall|p: int|
            0 <= p < expand_gather(layouts, rects, children, node, dim, k).1.len()
                ==> (#[trigger] expand_gather(layouts, rects, children, node, dim, k).1[p])
                < rects.len(),
    decreases k,
{
    if k > 0 {
        lemma_expand_gather_bounds(layouts, rects, children, node, dim, k - 1);
        let prev = expand_gather(layouts, rects, children, node, dim, k - 1).1;
        let out = expand_gather(layouts, rects, children, node, dim, k).1;
        let idx = children[node]@[k - 1];
        assert(idx < children.len());
        assert forall|p: int| 0 <= p < out.len() implies (#[trigger] out[p]) < rects.len() by {
            if p < prev.len() {
                assert(out[p] == prev[p]);
            } else {
                assert(out[p] == idx);
            }
        }
    }
}

/// One share round only rewrites listed slots, and only their size on the
/// axis.
proof fn lemma_assign_fold_frame(
    layouts: Seq<Layout>,
    rects: Seq<Rect>,
    dim: int,
    indexes: Seq<usize>,
    remaining: int,
    total: int,
    k: int,
)
    requires
        dim == 0 || dim == 1,
        0 <= k <= indexes.len(),
        forall|p: int| 0 <= p < indexes.len() ==> (#[trigger] indexes[p]) < rects.len(),
    ensures
        assign_fold(layouts, rects, dim, indexes, remaining, total, k).len() == rects.len(),
        forall|j: int|
            0 <= j < rects.len() ==> (#[trigger] assign_fold(
                layouts,
                rects,
                dim,
                indexes,
                remaining,
                total,
                k,
            )[j]) == rects[j] || (assign_fold(layouts, rects, dim, indexes, remaining, total, k)[j].position
                == rects[j].position && assign_fold(
                layouts,
                rects,
                dim,
                indexes,
                remaining,
                total,
                k,
            )[j].size.on(1 - dim) == rects[j].size.on(1 - dim) && exists|p: int|
                0 <= p < k && indexes[p] as int == j),
    decreases k,
{
    if k > 0 {
        lemma_assign_fold_frame(layouts, rects, dim, indexes, remaining, total, k - 1);
        let prev = assign_fold(layouts, rects, dim, indexes, remaining, total, k - 1);
        let out = assign_fold(layouts, rects, dim, indexes, remaining, total, k);
        assert forall|j: int|
            0 <= j < rects.len() implies (#[trigger] out[j]) == rects[j] || (out[j].position
                == rects[j].position && out[j].size.on(1 - dim) == rects[j].size.on(1 - dim)
                && exists|p: int| 0 <= p < k && indexes[p] as int == j) by {
            if j == indexes[k - 1] as int {
                assert(0 <= k - 1 < k && indexes[k - 1] as int == j);
            }
        }
    }
}

/// The clamp round only rewrites slots, non-negatively on the axis, and every
/// listed slot from position `i` on ends non-negative there.
proof fn lemma_clip_fold_nonneg(
    layouts: Seq<Layout>,
    rects: Seq<Rect>,
    dim: int,
    indexes: Seq<usize>,
    total: int,
    remaining: int,
    i: int,
)
    requires
        dim == 0 || dim == 1,
        0 <= i,
        forall|p: int| 0 <= p < indexes.len() ==> (#[trigger] indexes[p]) < rects.len(),
    ensures
        writes_nonneg(rects, clip_fold(layouts, rects, dim, indexes, total, remaining, i).0, dim),
        forall|p: int|
            i <= p < indexes.len() ==> clip_fold(
                layouts,
                rects,
                dim,
                indexes,
                total,
                remaining,
                i,
            ).0[#[trigger] indexes[p] as int].size.on(dim) >= 0,
    decreases indexes.len() - i,
{
    if i >= indexes.len() {
    } else {
        let idx = indexes[i] as int;
        let size = rects[idx].size.on(dim) as int;
        let clipped = layouts[idx].spec_clip(dim, size);
        let out = clip_fold(layouts, rects, dim, indexes, total, remaining, i).0;
        if clipped != size {
            let r1 = rects.update(idx, rects[idx].with_size(dim, clipped));
            let rem1 = sat32(remaining + size - clipped);
            let t1 = sat_u64(total - fraction_of(layouts[idx].size.on(dim)));
            let ix1 = indexes.update(i, indexes.last()).drop_last();
            assert(forall|p: int|
                0 <= p < ix1.len() ==> (#[trigger] ix1[p]) < r1.len());
            lemma_clip_fold_nonneg(layouts, r1, dim, ix1, t1, rem1, i);
            assert(writes_nonneg(rects, r1, dim));
            lemma_writes_trans(rects, r1, out, dim);
            assert forall|p: int| i <= p < indexes.len() implies out[#[trigger] indexes[p] as int].size.on(
                dim,
            ) >= 0 by {
                if indexes[p] as int == idx {
                    assert(r1[idx].size.on(dim) >= 0);
                    assert(out[idx] == r1[idx] || out[idx].size.on(dim) >= 0);
                } else if p < indexes.len() - 1 {
                    assert(ix1[p] == indexes[p]);
                } else {
                    assert(ix1[i] == indexes[p]);
                }
            }
        } else {
            lemma_clip_fold_nonneg(layouts, rects, dim, indexes, total, remaining, i + 1);
            assert forall|p: int| i <= p < indexes.len() implies out[#[trigger] indexes[p] as int].size.on(
                dim,
            ) >= 0 by {
                if p == i {
                    assert(rects[idx].size.on(dim) >= 0);
                    assert(out[idx] == rects[idx] || out[idx].size.on(dim) >= 0);
                }
            }
        }
    }
}

/// The whole share distribution only rewrites slots, non-negatively on the
/// axis: a slot the loop touched at all passed its last clamp round.
proof fn lemma_expand_loop_nonneg(
    layouts: Seq<Layout>,
    rects: Seq<Rect>,
    dim: int,
    indexes: Seq<usize>,
    total: int,
    remaining: int,
    fuel: nat,
)
    requires
        dim == 0 || dim == 1,
        forall|p: int| 0 <= p < indexes.len() ==> (#[trigger] indexes[p]) < rects.len(),
    ensures
        writes_nonneg(rects, expand_loop(layouts, rects, dim, indexes, total, remaining, fuel), dim),
    decreases fuel,
{
    if fuel == 0 || indexes.len() == 0 || remaining == 0 {
    } else {
        let r1 = assign_fold(layouts, rects, dim, indexes, remaining, total, indexes.len() as int);
        let (r2, ix2, t2, rem2) = clip_fold(layouts, r1, dim, indexes, total, 0, 0);
        lemma_assign_fold_frame(
            layouts,
            rects,
            dim,
            indexes,
            remaining,
            total,
            indexes.len() as int,
        );
        lemma_clip_fold_nonneg(layouts, r1, dim, indexes, total, 0, 0);
        assert(writes_nonneg(rects, r2, dim)) by {
            assert forall|j: int|
                0 <= j < rects.len() implies (#[trigger] r2[j]) == rects[j] || (r2[j].position
                    == rects[j].position && r2[j].size.on(1 - dim) == rects[j].size.on(1 - dim)
                    && r2[j].size.on(dim) >= 0) by {
                if r2[j] == r1[j] {
                    if r1[j] != rects[j] {
                        let p = choose|p: int| 0 <= p < indexes.len() && indexes[p] as int == j;
                        assert(r2[indexes[p] as int].size.on(dim) >= 0);
                    }
                }
            }
        }
        assert(clip_fold(layouts, r1, dim, indexes, total, 0, 0).1 == ix2);
        lemma_clip_fold_members(layouts, r1, dim, indexes, total, 0, 0);
        lemma_expand_loop_nonneg(layouts, r2, dim, ix2, t2, rem2, (fuel - 1) as nat);
        lemma_writes_trans(
            rects,
            r2,
            expand_loop(layouts, r2, dim, ix2, t2, rem2, (fuel - 1) as nat),
            dim,
        );
    }
}

/// The slots the clamp round keeps listed were listed before, so they stay
/// inside the arena.
proof fn lemma_clip_fold_members(
    layouts: Seq<Layout>,
    rects: Seq<Rect>,
    dim: int,
    indexes: Seq<usize>,
    total: int,
    remaining: int,
    i: int,
)
    requires
        0 <= i,
        forall|p: int| 0 <= p < indexes.len() ==> (#[trigger] indexes[p]) < rects.len(),
    ensures
        forall|p: int|
            0 <= p < clip_fold(layouts, rects, dim, indexes, total, remaining, i).1.len()
                ==> (#[trigger] clip_fold(layouts, rects, dim, indexes, total, remaining, i).1[p])
                < rects.len(),
    decreases indexes.len() - i,
{
    if i >= indexes.len() {
    } else {
        let idx = indexes[i] as int;
        let size = rects[idx].size.on(dim) as int;
        let clipped = layouts[idx].spec_clip(dim, size);
        if clipped != size {
            let r1 = rects.update(idx, rects[idx].with_size(dim, clipped));
            let rem1 = sat32(remaining + size - clipped);
            let t1 = sat_u64(total - fraction_of(layouts[idx].size.on(dim)));
            let ix1 = indexes.update(i, indexes.last()).drop_last();
            assert(forall|p: int| 0 <= p < ix1.len() ==> (#[trigger] ix1[p]) < r1.len());
            lemma_clip_fold_members(layouts, r1, dim, ix1, t1, rem1, i);
            assert(clip_fold(layouts, rects, dim, indexes, total, remaining, i) == clip_fold(
                layouts,
                r1,
                dim,
                ix1,
                t1,
                rem1,
                i,
            ));
            assert(r1.len() == rects.len());
            assert forall|p: int|
                0 <= p < clip_fold(layouts, rects, dim, indexes, total, remaining, i).1.len()
                implies (#[trigger] clip_fold(
                layouts,
                rects,
                dim,
                indexes,
                total,
                remaining,
                i,
            ).1[p]) < rects.len() by {
                assert(clip_fold(layouts, r1, dim, ix1, t1, rem1, i).1[p] < r1.len());
            }
        } else {
            lemma_clip_fold_members(layouts, rects, dim, indexes, total, remaining, i + 1);
            assert(clip_fold(layouts, rects, dim, indexes, total, remaining, i) == clip_fold(
                layouts,
                rects,
                dim,
                indexes,
                total,
                remaining,
                i + 1,
            ));
        }
    }
}

/// The whole expand pass along the layout direction only rewrites slots,
/// non-negatively on the axis.
pub proof fn lemma_expand_along_nonneg(
    layouts: Seq<Layout>,
    rects: Seq<Rect>,
    children: Seq<Vec<usize>>,
    node: int,
    dim: int,
)
    requires
        state_ok(layouts, rects, children),
        0 <= node < rects.len(),
        dim == 0 || dim == 1,
    ensures
        writes_nonneg(rects, spec_expand_along(layouts, rects, children, node, dim), dim),
{
    let (total, indexes, occupied) = expand_gather(
        layouts,
        rects,
        children,
        node,
        dim,
        children[node]@.len() as int,
    );
    let gaps = match layouts[node].gap {
        Gap::Fixed(g) => sat32(g * sub1(children[node]@.len() as int)),
        Gap::Auto => 0int,
    };
    let remaining = sat32(
        rects[node].size.on(dim) - layouts[node].padding.start.on(dim)
            - layouts[node].padding.end.on(dim) - gaps - occupied,
    );
    lemma_expand_gather_bounds(layouts, rects, children, node, dim, children[node]@.len() as int);
    lemma_expand_loop_nonneg(
        layouts,
        rects,
        dim,
        indexes,
        total,
        remaining,
        (indexes.len() + 1) as nat,
    );
}

/// The position pass at one node over the first `k` children: positions along
/// the layout direction accumulate margin, size and gap starting from `pos`;
/// the cross position of each child stands on its own, from the alignment.
/// Returns the updated rectangles and the accumulated position.
pub open spec fn positions_fold(
    layouts: Seq<Layout>,
    rects: Seq<Rect>,
    children: Seq<Vec<usize>>,
    node: int,
    along: int,
    across: int,
    align: Align,
    gap: int,
    pos: int,
    k: int,
) -> (Seq<Rect>, int)
    decreases k,
{
    if k <= 0 {
        (rects, pos)
    } else {
        let (prev, pos0) = positions_fold(
            layouts,
            rects,
            children,
            node,
            along,
            across,
            align,
            gap,
            pos,
            k - 1,
        );
        let idx = children[node]@[k - 1] as int;
        let cross = spec_position_across(
            align,
            layouts[node],
            prev[node],
            layouts[idx],
            prev[idx],
            across,
        );
        let r1 = prev.update(idx, prev[idx].with_position(across, cross));
        let pos1 = sat32(pos0 + layouts[idx].margin.start.on(along));
        let r2 = r1.update(idx, r1[idx].with_position(along, pos1));
        let pos2 = sat32(pos1 + r2[idx].size.on(along) + layouts[idx].margin.end.on(along) + gap);
        (r2, pos2)
    }
}

/// The whole position pass at one node: children are placed one after the
/// other along the layout direction, starting at the node's padded origin,
/// and aligned independently across it.
pub open spec fn spec_positions(
    layouts: Seq<Layout>,
    rects: Seq<Rect>,
    children: Seq<Vec<usize>>,
    node: int,
) -> Seq<Rect> {
    let along = layouts[node].direction.along();
    let across = layouts[node].direction.across();
    let align = layouts[node].direction.spec_align();
    let gap = spec_gap_along(layouts, rects, children, node, along);
    let pos = sat32(rects[node].position.on(along) + layouts[node].padding.start.on(along));
    positions_fold(
        layouts,
        rects,
        children,
        node,
        along,
        across,
        align,
        gap,
        pos,
        children[node]@.len() as int,
    ).0
}

/// Two rectangle arrays of one length whose slots agree in size: the second
/// differs at most in positions.
pub open spec fn keeps_sizes(a: Seq<Rect>, b: Seq<Rect>) -> bool {
    &&& a.len() == b.len()
    &&& forall|j: int| 0 <= j < a.len() ==> (#[trigger] b[j]).size == a[j].size
}

/// Keeping sizes composes.
pub proof fn lemma_keeps_trans(a: Seq<Rect>, b: Seq<Rect>, c: Seq<Rect>)
    requires
        keeps_sizes(a, b),
        keeps_sizes(b, c),
    ensures
        keeps_sizes(a, c),
{
    assert forall|j: int| 0 <= j < a.len() implies (#[trigger] c[j]).size == a[j].size by {
        assert(b[j].size == a[j].size);
        assert(c[j].size == b[j].size);
    }
}

/// Placing children rewrites positions only: every slot keeps its size.
proof fn lemma_positions_fold_sizes(
    layouts: Seq<Layout>,
    rects: Seq<Rect>,
    children: Seq<Vec<usize>>,
    node: int,
    along: int,
    across: int,
    align: Align,
    gap: int,
    pos: int,
    k: int,
)
    requires
        state_ok(layouts, rects, children),
        0 <= node < rects.len(),
        0 <= k <= children[node]@.len(),
    ensures
        keeps_sizes(
            rects,
            positions_fold(layouts, rects, children, node, along, across, align, gap, pos, k).0,
        ),
    decreases k,
{
    if k > 0 {
        lemma_positions_fold_sizes(
            layouts,
            rects,
            children,
            node,
            along,
            across,
            align,
            gap,
            pos,
            k - 1,
        );
        let (prev, pos0) = positions_fold(
            layouts,
            rects,
            children,
            node,
            along,
            across,
            align,
            gap,
            pos,
            k - 1,
        );
        assert(keeps_sizes(rects, prev));
        let idx = children[node]@[k - 1] as int;
        let cross = spec_position_across(
            align,
            layouts[node],
            prev[node],
            layouts[idx],
            prev[idx],
            across,
        );
        let r1 = prev.update(idx, prev[idx].with_position(across, cross));
        let pos1 = sat32(pos0 + layouts[idx].margin.start.on(along));
        let r2 = r1.update(idx, r1[idx].with_position(along, pos1));
        assert(positions_fold(
            layouts,
            rects,
            children,
            node,
            along,
            across,
            align,
            gap,
            pos,
            k,
        ).0 == r2);
        assert forall|j: int| 0 <= j < rects.len() implies (#[trigger] r2[j]).size
            == rects[j].size by {
            assert(prev[j].size == rects[j].size);
        }
    }
}

/// The whole position pass at one node keeps every slot's size.
pub proof fn lemma_positions_sizes(
    layouts: Seq<Layout>,
    rects: Seq<Rect>,
    children: Seq<Vec<usize>>,
    node: int,
)
    requires
        state_ok(layouts, rects, children),
        0 <= node < rects.len(),
    ensures
        keeps_sizes(rects, spec_positions(layouts, rects, children, node)),
{
    let along = layouts[node].direction.along();
    let across = layouts[node].direction.across();
    let align = layouts[node].direction.spec_align();
    let gap = spec_gap_along(layouts, rects, children, node, along);
    let pos = sat32(rects[node].position.on(along) + layouts[node].padding.start.on(along));
    lemma_positions_fold_sizes(
        layouts,
        rects,
        children,
        node,
        along,
        across,
        align,
        gap,
        pos,
        children[node]@.len() as int,
    );
}

/// Compute the positions of a node's children, for both axes at once.
pub fn positions(
    node: usize,
    rects: &mut Vec<Rect>,
    layouts: &Vec<Layout>,
    children: &Vec<Vec<usize>>,
)
    requires
        state_ok(layouts@, old(rects)@, children@),
        node < old(rects).len(),
    ensures
        final(rects)@ == spec_positions(layouts@, old(rects)@, children@, node as int),
        final(rects)@.len() == old(rects)@.len(),
{
    // Compute dimension indexes
    let (along, across): (usize, usize) = match layouts[node].direction {
        Direction::Horizontal(_) => (0, 1),
        Direction::Vertical(_) => (1, 0),
    };
    let align = layouts[node].direction.align();

    // Compute gap between children along the layout direction
    let gap = gap_along(node, rects, layouts, children, along);

    // Starting position along the layout direction
    let mut pos = clamp32(
        *rects[node].position.get(along) as i64 + *layouts[node].padding.start.get(along) as i64,
    );

    let n = children[node].len();
    let mut k: usize = 0;
    while k < n
        invariant
            state_ok(layouts@, rects@, children@),
            node < rects@.len(),
            along < 2,
            across < 2,
            k <= n,
            n == children@[node as int]@.len(),
            (rects@, pos as int) == positions_fold(
                layouts@,
                old(rects)@,
                children@,
                node as int,
                along as int,
                across as int,
                align,
                gap as int,
                sat32(
                    old(rects)@[node as int].position.on(along as int)
                        + layouts@[node as int].padding.start.on(along as int),
                ),
                k as int,
            ),
        decreases n - k,
    {
        let idx = children[node][k];

        // Position across the direction (independent from other children)
        let cross = position_across(align, &layouts[node], &rects[node], &layouts[idx], &rects[idx], across);
        let mut r = rects[idx];
        r.position.set(across, cross);
        rects[idx] = r;

        // Position along the direction (accumulate child after child)
        pos = add_sat(pos, *layouts[idx].margin.start.get(along));
        let mut r2 = rects[idx];
        r2.position.set(along, pos);
        rects[idx] = r2;
        pos = clamp32(
            pos as i64 + *rects[idx].size.get(along) as i64 + *layouts[idx].margin.end.get(
                along,
            ) as i64 + gap as i64,
        );
        k = k + 1;
    }
}

} // verus!
