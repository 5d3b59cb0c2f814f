//! The layout solver: six ordered passes over one tree.
//!
//! Each driver recurses along the ghost [`Shape`] of the tree, which both
//! bounds the recursion and gives every solve a spec-level model,
//! [`spec_solve`].

use vstd::prelude::*;

use crate::layout::Layout;
use crate::passes::{
    expand_across, expand_along, fixed, fit_across, fit_along, keeps_sizes, lemma_expand_across_nonneg,
    lemma_expand_along_nonneg, lemma_fit_across_nonneg, lemma_fit_along_nonneg, lemma_fixed_nonneg,
    lemma_keeps_trans, lemma_positions_sizes, lemma_writes_trans, positions, spec_expand_across,
    spec_expand_along, spec_fixed, spec_fit_across, spec_fit_along, spec_positions, state_ok,
    writes_nonneg,
};
use crate::rect::Rect;
use crate::size::Size;
use crate::tree::{
    lemma_kid_matches, lemma_pk_member, lemma_pre_bounded, preorder, preorder_kids, shape_matches,
    shape_of, Shape,
};

verus! {

/// The fixed pass over a whole subtree, top-down: the node first, then each
/// child subtree in order.
pub open spec fn spec_recurse_fixed(
    layouts: Seq<Layout>,
    rects: Seq<Rect>,
    children: Seq<Vec<usize>>,
    node: int,
    dim: int,
    s: Shape,
) -> Seq<Rect>
    decreases s, 1int,
{
    let r1 = spec_fixed(layouts, rects, children, node, dim);
    rf_kids(layouts, r1, children, dim, s.kids())
}

/// The fixed pass over a list of subtrees, left to right.
pub open spec fn rf_kids(
    layouts: Seq<Layout>,
    rects: Seq<Rect>,
    children: Seq<Vec<usize>>,
    dim: int,
    kids: Seq<Shape>,
) -> Seq<Rect>
    decreases kids, 0int,
{
    if kids.len() == 0 {
        rects
    } else {
        let r1 = spec_recurse_fixed(layouts, rects, children, kids[0].id(), dim, kids[0]);
        rf_kids(layouts, r1, children, dim, kids.drop_first())
    }
}

/// The grow pass over a whole subtree, bottom-up: the child subtrees first,
/// then the node's own fit size, then its children's expansion. On the axis
/// the node lays out along, fit sums and expansion shares; on the other axis,
/// fit takes the maximum and expansion fills the one lane.
pub open spec fn spec_recurse_grow(
    layouts: Seq<Layout>,
    rects: Seq<Rect>,
    children: Seq<Vec<usize>>,
    node: int,
    dim: int,
    s: Shape,
) -> Seq<Rect>
    decreases s, 1int,
{
    let r1 = rg_kids(layouts, rects, children, dim, s.kids());
    let along = layouts[node].direction.along() == dim;
    let r2 = if layouts[node].size.on(dim) is Fit {
        if along {
            spec_fit_along(layouts, r1, children, node, dim)
        } else {
            spec_fit_across(layouts, r1, children, node, dim)
        }
    } else {
        r1
    };
    if along {
        spec_expand_along(layouts, r2, children, node, dim)
    } else {
        spec_expand_across(layouts, r2, children, node, dim)
    }
}

/// The grow pass over a list of subtrees, left to right.
pub open spec fn rg_kids(
    layouts: Seq<Layout>,
    rects: Seq<Rect>,
    children: Seq<Vec<usize>>,
    dim: int,
    kids: Seq<Shape>,
) -> Seq<Rect>
    decreases kids, 0int,
{
    if kids.len() == 0 {
        rects
    } else {
        let r1 = spec_recurse_grow(layouts, rects, children, kids[0].id(), dim, kids[0]);
        rg_kids(layouts, r1, children, dim, kids.drop_first())
    }
}

/// The position pass over a whole subtree, top-down.
pub open spec fn spec_recurse_positions(
    layouts: Seq<Layout>,
    rects: Seq<Rect>,
    children: Seq<Vec<usize>>,
    node: int,
    s: Shape,
) -> Seq<Rect>
    decreases s, 1int,
{
    let r1 = spec_positions(layouts, rects, children, node);
    rp_kids(layouts, r1, children, s.kids())
}

/// The position pass over a list of subtrees, left to right.
pub open spec fn rp_kids(
    layouts: Seq<Layout>,
    rects: Seq<Rect>,
    children: Seq<Vec<usize>>,
    kids: Seq<Shape>,
) -> Seq<Rect>
    decreases kids, 0int,
{
    if kids.len() == 0 {
        rects
    } else {
        let r1 = spec_recurse_positions(layouts, rects, children, kids[0].id(), kids[0]);
        rp_kids(layouts, r1, children, kids.drop_first())
    }
}

/// A whole solve from `root`: fixed and grow passes on the width axis, the
/// same on the height axis, then positions, each over the full subtree.
pub open spec fn spec_solve(
    layouts: Seq<Layout>,
    rects: Seq<Rect>,
    children: Seq<Vec<usize>>,
    root: int,
    s: Shape,
) -> Seq<Rect> {
    let r1 = spec_recurse_fixed(layouts, rects, children, root, 0, s);
    let r2 = spec_recurse_grow(layouts, r1, children, root, 0, s);
    let r3 = spec_recurse_fixed(layouts, r2, children, root, 1, s);
    let r4 = spec_recurse_grow(layouts, r3, children, root, 1, s);
    spec_recurse_positions(layouts, r4, children, root, s)
}

/// The fixed pass over a subtree only rewrites slots, non-negatively on the
/// axis, and leaves every id of the subtree non-negative there — but for a
/// `Percent` subtree root, which only a pass at its parent would write.
proof fn lemma_rf_nonneg(
    layouts: Seq<Layout>,
    rects: Seq<Rect>,
    children: Seq<Vec<usize>>,
    node: int,
    dim: int,
    s: Shape,
)
    requires
        state_ok(layouts, rects, children),
        shape_matches(children, node, s),
        dim == 0 || dim == 1,
    ensures
        writes_nonneg(rects, spec_recurse_fixed(layouts, rects, children, node, dim, s), dim),
        forall|n: int|
            #[trigger] preorder(s).contains(n) && !(n == node && layouts[n].size.on(dim) is Percent)
                ==> spec_recurse_fixed(layouts, rects, children, node, dim, s)[n].size.on(dim) >= 0,
    decreases s, 1int,
{
    let r1 = spec_fixed(layouts, rects, children, node, dim);
    let out = spec_recurse_fixed(layouts, rects, children, node, dim, s);
    lemma_fixed_nonneg(layouts, rects, children, node, dim);
    assert(state_ok(layouts, r1, children));
    assert forall|k: int| 0 <= k < s.kids().len() implies shape_matches(
        children,
        (#[trigger] s.kids()[k]).id(),
        s.kids()[k],
    ) by {
        lemma_kid_matches(children, node, s, k);
    }
    lemma_rf_kids_nonneg(layouts, r1, children, dim, s.kids());
    lemma_writes_trans(rects, r1, out, dim);
    lemma_pre_bounded(children, node, s);
    assert forall|n: int|
        #[trigger] preorder(s).contains(n) && !(n == node && layouts[n].size.on(dim) is Percent)
        implies out[n].size.on(dim) >= 0 by {
        assert(0 <= n < children.len());
        let j = choose|j: int| 0 <= j < preorder(s).len() && preorder(s)[j] == n;
        assert(preorder(s) == seq![s.id()] + preorder_kids(s.kids()));
        if j == 0 {
            assert(r1[n].size.on(dim) >= 0);
            assert(out[n] == r1[n] || out[n].size.on(dim) >= 0);
        } else {
            assert(preorder_kids(s.kids())[j - 1] == n);
            assert(preorder_kids(s.kids()).contains(n));
            lemma_pk_member(s.kids(), n);
            let k = choose|k: int|
                0 <= k < s.kids().len() && preorder(#[trigger] s.kids()[k]).contains(n);
            lemma_kid_matches(children, node, s, k);
            if n == s.kids()[k].id() && layouts[n].size.on(dim) is Percent {
                assert(children[node]@[k] as int == n);
                assert(r1[n].size.on(dim) >= 0);
                assert(out[n] == r1[n] || out[n].size.on(dim) >= 0);
            }
        }
    }
}

/// The fixed pass over a list of subtrees, with the same guarantees per
/// subtree.
proof fn lemma_rf_kids_nonneg(
    layouts: Seq<Layout>,
    rects: Seq<Rect>,
    children: Seq<Vec<usize>>,
    dim: int,
    kids: Seq<Shape>,
)
    requires
        state_ok(layouts, rects, children),
        dim == 0 || dim == 1,
        forall|k: int|
            0 <= k < kids.len() ==> shape_matches(children, (#[trigger] kids[k]).id(), kids[k]),
    ensures
        writes_nonneg(rects, rf_kids(layouts, rects, children, dim, kids), dim),
        forall|k: int, n: int|
            0 <= k < kids.len() && #[trigger] preorder(kids[k]).contains(n) && !(n == kids[k].id()
                && layouts[n].size.on(dim) is Percent) ==> rf_kids(
                layouts,
                rects,
                children,
                dim,
                kids,
            )[n].size.on(dim) >= 0,
    decreases kids, 0int,
{
    if kids.len() == 0 {
    } else {
        let r1 = spec_recurse_fixed(layouts, rects, children, kids[0].id(), dim, kids[0]);
        let out = rf_kids(layouts, rects, children, dim, kids);
        lemma_rf_nonneg(layouts, rects, children, kids[0].id(), dim, kids[0]);
        assert(state_ok(layouts, r1, children));
        let rest = kids.drop_first();
        assert forall|k: int| 0 <= k < rest.len() implies shape_matches(
            children,
            (#[trigger] rest[k]).id(),
            rest[k],
        ) by {
            assert(rest[k] == kids[k + 1]);
        }
        lemma_rf_kids_nonneg(layouts, r1, children, dim, rest);
        lemma_writes_trans(rects, r1, out, dim);
        assert forall|k: int, n: int|
            0 <= k < kids.len() && #[trigger] preorder(kids[k]).contains(n) && !(n == kids[k].id()
                && layouts[n].size.on(dim) is Percent) implies out[n].size.on(dim) >= 0 by {
            lemma_pre_bounded(children, kids[k].id(), kids[k]);
            assert(0 <= n < children.len());
            if k == 0 {
                assert(r1[n].size.on(dim) >= 0);
                assert(out[n] == r1[n] || out[n].size.on(dim) >= 0);
            } else {
                assert(rest[k - 1] == kids[k]);
                assert(preorder(rest[k - 1]).contains(n));
            }
        }
    }
}

/// The grow pass over a subtree only rewrites slots, non-negatively on the
/// axis.
proof fn lemma_rg_nonneg(
    layouts: Seq<Layout>,
    rects: Seq<Rect>,
    children: Seq<Vec<usize>>,
    node: int,
    dim: int,
    s: Shape,
)
    requires
        state_ok(layouts, rects, children),
        shape_matches(children, node, s),
        dim == 0 || dim == 1,
    ensures
        writes_nonneg(rects, spec_recurse_grow(layouts, rects, children, node, dim, s), dim),
    decreases s, 1int,
{
    assert forall|k: int| 0 <= k < s.kids().len() implies shape_matches(
        children,
        (#[trigger] s.kids()[k]).id(),
        s.kids()[k],
    ) by {
        lemma_kid_matches(children, node, s, k);
    }
    lemma_rg_kids_nonneg(layouts, rects, children, dim, s.kids());
    let r1 = rg_kids(layouts, rects, children, dim, s.kids());
    assert(state_ok(layouts, r1, children));
    let along = layouts[node].direction.along() == dim;
    let r2 = if layouts[node].size.on(dim) is Fit {
        if along {
            lemma_fit_along_nonneg(layouts, r1, children, node, dim);
            spec_fit_along(layouts, r1, children, node, dim)
        } else {
            lemma_fit_across_nonneg(layouts, r1, children, node, dim);
            spec_fit_across(layouts, r1, children, node, dim)
        }
    } else {
        r1
    };
    assert(writes_nonneg(r1, r2, dim));
    assert(state_ok(layouts, r2, children));
    if along {
        lemma_expand_along_nonneg(layouts, r2, children, node, dim);
    } else {
        lemma_expand_across_nonneg(layouts, r2, children, node, dim);
    }
    lemma_writes_trans(rects, r1, r2, dim);
    lemma_writes_trans(rects, r2, spec_recurse_grow(layouts, rects, children, node, dim, s), dim);
}

/// The grow pass over a list of subtrees, with the same guarantee.
proof fn lemma_rg_kids_nonneg(
    layouts: Seq<Layout>,
    rects: Seq<Rect>,
    children: Seq<Vec<usize>>,
    dim: int,
    kids: Seq<Shape>,
)
    requires
        state_ok(layouts, rects, children),
        dim == 0 || dim == 1,
        forall|k: int|
            0 <= k < kids.len() ==> shape_matches(children, (#[trigger] kids[k]).id(), kids[k]),
    ensures
        writes_nonneg(rects, rg_kids(layouts, rects, children, dim, kids), dim),
    decreases kids, 0int,
{
    if kids.len() == 0 {
    } else {
        let r1 = spec_recurse_grow(layouts, rects, children, kids[0].id(), dim, kids[0]);
        lemma_rg_nonneg(layouts, rects, children, kids[0].id(), dim, kids[0]);
        assert(state_ok(layouts, r1, children));
        let rest = kids.drop_first();
        assert forall|k: int| 0 <= k < rest.len() implies shape_matches(
            children,
            (#[trigger] rest[k]).id(),
            rest[k],
        ) by {
            assert(rest[k] == kids[k + 1]);
        }
        lemma_rg_kids_nonneg(layouts, r1, children, dim, rest);
        lemma_writes_trans(rects, r1, rg_kids(layouts, rects, children, dim, kids), dim);
    }
}

/// The position pass over a subtree keeps every slot's size.
proof fn lemma_rp_sizes(
    layouts: Seq<Layout>,
    rects: Seq<Rect>,
    children: Seq<Vec<usize>>,
    node: int,
    s: Shape,
)
    requires
        state_ok(layouts, rects, children),
        shape_matches(children, node, s),
    ensures
        keeps_sizes(rects, spec_recurse_positions(layouts, rects, children, node, s)),
    decreases s, 1int,
{
    lemma_positions_sizes(layouts, rects, children, node);
    let r1 = spec_positions(layouts, rects, children, node);
    assert(state_ok(layouts, r1, children));
    assert forall|k: int| 0 <= k < s.kids().len() implies shape_matches(
        children,
        (#[trigger] s.kids()[k]).id(),
        s.kids()[k],
    ) by {
        lemma_kid_matches(children, node, s, k);
    }
    lemma_rp_kids_sizes(layouts, r1, children, s.kids());
    lemma_keeps_trans(rects, r1, spec_recurse_positions(layouts, rects, children, node, s));
}

/// The position pass over a list of subtrees keeps every slot's size.
proof fn lemma_rp_kids_sizes(
    layouts: Seq<Layout>,
    rects: Seq<Rect>,
    children: Seq<Vec<usize>>,
    kids: Seq<Shape>,
)
    requires
        state_ok(layouts, rects, children),
        forall|k: int|
            0 <= k < kids.len() ==> shape_matches(children, (#[trigger] kids[k]).id(), kids[k]),
    ensures
        keeps_sizes(rects, rp_kids(layouts, rects, children, kids)),
    decreases kids, 0int,
{
    if kids.len() == 0 {
    } else {
        let r1 = spec_recurse_positions(layouts, rects, children, kids[0].id(), kids[0]);
        lemma_rp_sizes(layouts, rects, children, kids[0].id(), kids[0]);
        assert(state_ok(layouts, r1, children));
        let rest = kids.drop_first();
        assert forall|k: int| 0 <= k < rest.len() implies shape_matches(
            children,
            (#[trigger] rest[k]).id(),
            rest[k],
        ) by {
            assert(rest[k] == kids[k + 1]);
        }
        lemma_rp_kids_sizes(layouts, r1, children, rest);
        lemma_keeps_trans(rects, r1, rp_kids(layouts, rects, children, kids));
    }
}

/// After a whole solve, every node of the solved subtree holds a
/// non-negative size on both axes. The one exception is a `Percent` root:
/// only a pass at a node's parent resolves a `Percent` policy, and the
/// subtree root has none, so its size on that axis is left as it was.
pub proof fn lemma_solve_nonneg(
    layouts: Seq<Layout>,
    rects: Seq<Rect>,
    children: Seq<Vec<usize>>,
    root: int,
    s: Shape,
)
    requires
        state_ok(layouts, rects, children),
        shape_matches(children, root, s),
    ensures
        forall|n: int|
            #[trigger] preorder(s).contains(n) && !(n == root && layouts[n].size.on(0) is Percent)
                ==> spec_solve(layouts, rects, children, root, s)[n].size.on(0) >= 0,
        forall|n: int|
            #[trigger] preorder(s).contains(n) && !(n == root && layouts[n].size.on(1) is Percent)
                ==> spec_solve(layouts, rects, children, root, s)[n].size.on(1) >= 0,
{
    let r1 = spec_recurse_fixed(layouts, rects, children, root, 0, s);
    let r2 = spec_recurse_grow(layouts, r1, children, root, 0, s);
    let r3 = spec_recurse_fixed(layouts, r2, children, root, 1, s);
    let r4 = spec_recurse_grow(layouts, r3, children, root, 1, s);
    let r5 = spec_recurse_positions(layouts, r4, children, root, s);
    lemma_rf_nonneg(layouts, rects, children, root, 0, s);
    assert(state_ok(layouts, r1, children));
    lemma_rg_nonneg(layouts, r1, children, root, 0, s);
    assert(state_ok(layouts, r2, children));
    lemma_rf_nonneg(layouts, r2, children, root, 1, s);
    assert(state_ok(layouts, r3, children));
    lemma_rg_nonneg(layouts, r3, children, root, 1, s);
    assert(state_ok(layouts, r4, children));
    lemma_rp_sizes(layouts, r4, children, root, s);
    lemma_pre_bounded(children, root, s);
    assert forall|n: int|
        #[trigger] preorder(s).contains(n) && !(n == root && layouts[n].size.on(0) is Percent)
        implies r5[n].size.on(0) >= 0 by {
        assert(0 <= n < children.len());
        assert(r1[n].size.on(0) >= 0);
        assert(r2[n] == r1[n] || r2[n].size.on(0) >= 0);
        assert(r3[n] == r2[n] || r3[n].size.on(0) == r2[n].size.on(0));
        assert(r4[n] == r3[n] || r4[n].size.on(0) == r3[n].size.on(0));
        assert(r5[n].size == r4[n].size);
    }
    assert forall|n: int|
        #[trigger] preorder(s).contains(n) && !(n == root && layouts[n].size.on(1) is Percent)
        implies r5[n].size.on(1) >= 0 by {
        assert(0 <= n < children.len());
        assert(r3[n].size.on(1) >= 0);
        assert(r4[n] == r3[n] || r4[n].size.on(1) >= 0);
        assert(r5[n].size == r4[n].size);
    }
}

/// Compute fixed & percent dimensions in a top-down recursive way.
fn recurse_fixed(
    node: usize,
    rects: &mut Vec<Rect>,
    layouts: &Vec<Layout>,
    children: &Vec<Vec<usize>>,
    dim: usize,
    Ghost(s): Ghost<Shape>,
)
    requires
        state_ok(layouts@, old(rects)@, children@),
        shape_matches(children@, node as int, s),
        dim < 2,
    ensures
        final(rects)@ == spec_recurse_fixed(
            layouts@,
            old(rects)@,
            children@,
            node as int,
            dim as int,
            s,
        ),
        final(rects)@.len() == old(rects)@.len(),
    decreases s,
{
    // 1. Compute fixed dimensions for the current node & percents for children
    fixed(node, rects, layouts, children, dim);

    // 2. Recurse children
    let n = children[node].len();
    let ghost goal = spec_recurse_fixed(layouts@, old(rects)@, children@, node as int, dim as int, s);
    assert(s.kids().skip(0) =~= s.kids());
    let mut k: usize = 0;
    while k < n
        invariant
            state_ok(layouts@, rects@, children@),
            shape_matches(children@, node as int, s),
            dim < 2,
            k <= n,
            node < rects@.len(),
            n == children@[node as int]@.len(),
            rects@.len() == old(rects)@.len(),
            goal == rf_kids(layouts@, rects@, children@, dim as int, s.kids().skip(k as int)),
        decreases n - k,
    {
        let ghost r0 = rects@;
        let idx = children[node][k];
        recurse_fixed(idx, rects, layouts, children, dim, Ghost(s.kids()[k as int]));
        proof {
            let kids = s.kids();
            let pre = kids.skip(k as int);
            assert(pre[0] == kids[k as int]);
            assert(pre.drop_first() =~= kids.skip(k + 1 as int));
            lemma_kid_matches(children@, node as int, s, k as int);
            assert(kids[k as int].id() == idx as int);
            assert(rf_kids(layouts@, r0, children@, dim as int, pre) == rf_kids(
                layouts@,
                spec_recurse_fixed(layouts@, r0, children@, pre[0].id(), dim as int, pre[0]),
                children@,
                dim as int,
                pre.drop_first(),
            ));
        }
        k = k + 1;
    }
}

/// Compute grow sizes in a bottom-up recursive way: children first, then the
/// node's own fit size, then the expansion of its children.
fn recurse_grow(
    node: usize,
    rects: &mut Vec<Rect>,
    layouts: &Vec<Layout>,
    children: &Vec<Vec<usize>>,
    dim: usize,
    Ghost(s): Ghost<Shape>,
)
    requires
        state_ok(layouts@, old(rects)@, children@),
        shape_matches(children@, node as int, s),
        dim < 2,
    ensures
        final(rects)@ == spec_recurse_grow(
            layouts@,
            old(rects)@,
            children@,
            node as int,
            dim as int,
            s,
        ),
        final(rects)@.len() == old(rects)@.len(),
    decreases s,
{
    // 1. Recurse children
    let n = children[node].len();
    assert(s.kids().skip(0) =~= s.kids());
    let mut k: usize = 0;
    while k < n
        invariant
            state_ok(layouts@, rects@, children@),
            shape_matches(children@, node as int, s),
            dim < 2,
            k <= n,
            node < rects@.len(),
            n == children@[node as int]@.len(),
            rects@.len() == old(rects)@.len(),
            rg_kids(layouts@, rects@, children@, dim as int, s.kids().skip(k as int)) == rg_kids(
                layouts@,
                old(rects)@,
                children@,
                dim as int,
                s.kids(),
            ),
        decreases n - k,
    {
        let ghost r0 = rects@;
        let idx = children[node][k];
        recurse_grow(idx, rects, layouts, children, dim, Ghost(s.kids()[k as int]));
        proof {
            let kids = s.kids();
            let pre = kids.skip(k as int);
            assert(pre[0] == kids[k as int]);
            assert(pre.drop_first() =~= kids.skip(k + 1 as int));
            lemma_kid_matches(children@, node as int, s, k as int);
            assert(kids[k as int].id() == idx as int);
            assert(rg_kids(layouts@, r0, children@, dim as int, pre) == rg_kids(
                layouts@,
                spec_recurse_grow(layouts@, r0, children@, pre[0].id(), dim as int, pre[0]),
                children@,
                dim as int,
                pre.drop_first(),
            ));
        }
        k = k + 1;
    }

    // 2. If this node is "fit", compute its size from children + direction
    let along = match layouts[node].direction {
        crate::direction::Direction::Horizontal(_) => dim == 0,
        crate::direction::Direction::Vertical(_) => dim == 1,
    };
    if let Size::Fit = *layouts[node].size.get(dim) {
        if along {
            fit_along(node, rects, layouts, children, dim);
        } else {
            fit_across(node, rects, layouts, children, dim);
        }
    }

    // 3. Expand all children of this node that are expandable
    if along {
        expand_along(node, rects, layouts, children, dim);
    } else {
        expand_across(node, rects, layouts, children, dim);
    }
}

/// Compute positions in a top-down recursive way.
fn recurse_positions(
    node: usize,
    rects: &mut Vec<Rect>,
    layouts: &Vec<Layout>,
    children: &Vec<Vec<usize>>,
    Ghost(s): Ghost<Shape>,
)
    requires
        state_ok(layouts@, old(rects)@, children@),
        shape_matches(children@, node as int, s),
    ensures
        final(rects)@ == spec_recurse_positions(
            layouts@,
            old(rects)@,
            children@,
            node as int,
            s,
        ),
        final(rects)@.len() == old(rects)@.len(),
    decreases s,
{
    // 1. Compute positions of children
    positions(node, rects, layouts, children);

    // 2. Recurse children
    let n = children[node].len();
    let ghost goal = spec_recurse_positions(layouts@, old(rects)@, children@, node as int, s);
    assert(s.kids().skip(0) =~= s.kids());
    let mut k: usize = 0;
    while k < n
        invariant
            state_ok(layouts@, rects@, children@),
            shape_matches(children@, node as int, s),
            k <= n,
            node < rects@.len(),
            n == children@[node as int]@.len(),
            rects@.len() == old(rects)@.len(),
            goal == rp_kids(layouts@, rects@, children@, s.kids().skip(k as int)),
        decreases n - k,
    {
        let ghost r0 = rects@;
        let idx = children[node][k];
        recurse_positions(idx, rects, layouts, children, Ghost(s.kids()[k as int]));
        proof {
            let kids = s.kids();
            let pre = kids.skip(k as int);
            assert(pre[0] == kids[k as int]);
            assert(pre.drop_first() =~= kids.skip(k + 1 as int));
            lemma_kid_matches(children@, node as int, s, k as int);
            assert(kids[k as int].id() == idx as int);
            assert(rp_kids(layouts@, r0, children@, pre) == rp_kids(
                layouts@,
                spec_recurse_positions(layouts@, r0, children@, pre[0].id(), pre[0]),
                children@,
                pre.drop_first(),
            ));
        }
        k = k + 1;
    }
}

/// Compute a layout starting from the given node.
///
/// Six ordered passes: fixed widths (top-down), grow widths (bottom-up), the
/// text-wrap pass (a placeholder: content-driven heights are out of scope),
/// fixed heights, grow heights, and positions (top-down).
pub fn compute_layout(
    root: usize,
    layouts: &Vec<Layout>,
    rects: &mut Vec<Rect>,
    children: &Vec<Vec<usize>>,
)
    requires
        state_ok(layouts@, old(rects)@, children@),
        exists|s: Shape| shape_matches(children@, root as int, s),
    ensures
        final(rects)@ == spec_solve(
            layouts@,
            old(rects)@,
            children@,
            root as int,
            shape_of(children@, root as int),
        ),
        final(rects)@.len() == old(rects)@.len(),
        forall|n: int|
            #[trigger] preorder(shape_of(children@, root as int)).contains(n) && !(n == root as int
                && layouts@[n].size.on(0) is Percent) ==> final(rects)@[n].size.on(0) >= 0,
        forall|n: int|
            #[trigger] preorder(shape_of(children@, root as int)).contains(n) && !(n == root as int
                && layouts@[n].size.on(1) is Percent) ==> final(rects)@[n].size.on(1) >= 0,
{
    let ghost s = shape_of(children@, root as int);
    assert(shape_matches(children@, root as int, s));
    proof {
        lemma_solve_nonneg(layouts@, rects@, children@, root as int, s);
    }
    // 1st pass: compute fixed widths (top-down)
    recurse_fixed(root, rects, layouts, children, 0, Ghost(s));
    // 2nd pass: compute expand widths (bottom-up)
    recurse_grow(root, rects, layouts, children, 0, Ghost(s));
    // 3rd pass: compute text height after wrapping (reserved)
    // 4th pass: compute fixed heights (top-down)
    recurse_fixed(root, rects, layouts, children, 1, Ghost(s));
    // 5th pass: compute expand heights (bottom-up)
    recurse_grow(root, rects, layouts, children, 1, Ghost(s));
    // 6th pass: compute positions (top-down)
    recurse_positions(root, rects, layouts, children, Ghost(s));
}

} // verus!
