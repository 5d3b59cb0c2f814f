//! Laws of the layout solver, proved against its spec-level model.
//!
//! Each law quantifies over every state of the stated form: the parallel
//! arrays are parameters, constrained only as the law demands.

use vstd::prelude::*;

use crate::axes::Axes;
use crate::compute::spec_solve;
use crate::layout::Layout;
use crate::rect::Rect;
use crate::size::Size;
use crate::tree::{leaf, lemma_shape_unique, shape_matches, shape_of, Shape};

verus! {

/// A node with `Fixed(w, h)` sizing and no children solves to exactly
/// `(w, h)`, whatever geometry was computed before.
pub proof fn law_fixed_sizing(
    layouts: Seq<Layout>,
    rects: Seq<Rect>,
    children: Seq<Vec<usize>>,
    w: i32,
    h: i32,
)
    requires
        layouts.len() == 1,
        rects.len() == 1,
        children.len() == 1,
        children[0]@.len() == 0,
        layouts[0] == (Layout {
            size: Axes { x: Size::Fixed(w), y: Size::Fixed(h) },
            ..Layout::spec_default()
        }),
        w >= 0,
        h >= 0,
    ensures
        ({
            let out = spec_solve(layouts, rects, children, 0, shape_of(children, 0));
            out[0].size.x == w && out[0].size.y == h
        }),
{
    let s = leaf(0);
    assert(shape_matches(children, 0, s));
    assert(shape_matches(children, 0, shape_of(children, 0)));
    lemma_shape_unique(children, 0, shape_of(children, 0), s);
    let out = spec_solve(layouts, rects, children, 0, s);
    assert(out[0].size.x == w && out[0].size.y == h);
}

/// A `Fit`-by-`Fit` node around a single `Fixed(w, h)` child with uniform
/// child margin `m` and uniform node padding `p` solves to exactly the child
/// size grown by the margins and the padding on both sides.
pub proof fn law_fit_around_single_child(
    layouts: Seq<Layout>,
    rects: Seq<Rect>,
    children: Seq<Vec<usize>>,
    w: i32,
    h: i32,
    m: i32,
    p: i32,
)
    requires
        layouts.len() == 2,
        rects.len() == 2,
        children.len() == 2,
        children[0]@ == seq![1usize],
        children[1]@.len() == 0,
        layouts[0] == (Layout {
            padding: crate::insets::Insets {
                start: Axes { x: p, y: p },
                end: Axes { x: p, y: p },
            },
            ..Layout::spec_default()
        }),
        layouts[1] == (Layout {
            size: Axes { x: Size::Fixed(w), y: Size::Fixed(h) },
            margin: crate::insets::Insets {
                start: Axes { x: m, y: m },
                end: Axes { x: m, y: m },
            },
            ..Layout::spec_default()
        }),
        0 <= w <= 1000000,
        0 <= h <= 1000000,
        0 <= m <= 1000000,
        0 <= p <= 1000000,
    ensures
        ({
            let out = spec_solve(layouts, rects, children, 0, shape_of(children, 0));
            out[0].size.x == w + 2 * m + 2 * p && out[0].size.y == h + 2 * m + 2 * p
        }),
{
    let s = Shape::Node { id: 0, kids: seq![leaf(1)] };
    assert(shape_matches(children, 0, s)) by {
        assert(children[0]@[0] == 1usize);
        assert(shape_matches(children, 1, leaf(1)));
    }
    assert(shape_matches(children, 0, shape_of(children, 0)));
    lemma_shape_unique(children, 0, shape_of(children, 0), s);
    let out = spec_solve(layouts, rects, children, 0, s);
    assert(out[0].size.x == w + 2 * m + 2 * p && out[0].size.y == h + 2 * m + 2 * p) by {
        reveal_with_fuel(crate::compute::spec_recurse_fixed, 4);
        reveal_with_fuel(crate::compute::rf_kids, 4);
        reveal_with_fuel(crate::compute::spec_recurse_grow, 4);
        reveal_with_fuel(crate::compute::rg_kids, 4);
        reveal_with_fuel(crate::compute::spec_recurse_positions, 4);
        reveal_with_fuel(crate::compute::rp_kids, 4);
        reveal_with_fuel(crate::passes::fixed_percents, 4);
        reveal_with_fuel(crate::passes::fit_total, 4);
        reveal_with_fuel(crate::passes::fit_max, 4);
        reveal_with_fuel(crate::passes::expand_across_fold, 4);
        reveal_with_fuel(crate::passes::expand_gather, 4);
        reveal_with_fuel(crate::passes::assign_fold, 4);
        reveal_with_fuel(crate::passes::clip_fold, 4);
        reveal_with_fuel(crate::passes::expand_loop, 4);
        reveal_with_fuel(crate::passes::positions_fold, 4);
        reveal_with_fuel(crate::passes::auto_gap_remaining, 4);
    }
}

/// Two `Fixed` children under a vertical `Fit`-by-`Fit` node, with no
/// margins, padding or gap: the node's width is the larger child width, its
/// height the sum of the child heights.
#[verifier::rlimit(100)]
pub proof fn law_fit_vertical(
    layouts: Seq<Layout>,
    rects: Seq<Rect>,
    children: Seq<Vec<usize>>,
    w1: i32,
    h1: i32,
    w2: i32,
    h2: i32,
)
    requires
        layouts.len() == 3,
        rects.len() == 3,
        children.len() == 3,
        children[0]@ == seq![1usize, 2usize],
        children[1]@.len() == 0,
        children[2]@.len() == 0,
        layouts[0] == Layout::spec_default(),
        layouts[1] == (Layout {
            size: Axes { x: Size::Fixed(w1), y: Size::Fixed(h1) },
            ..Layout::spec_default()
        }),
        layouts[2] == (Layout {
            size: Axes { x: Size::Fixed(w2), y: Size::Fixed(h2) },
            ..Layout::spec_default()
        }),
        0 <= w1 <= 1000000,
        0 <= h1 <= 1000000,
        0 <= w2 <= 1000000,
        0 <= h2 <= 1000000,
    ensures
        ({
            let out = spec_solve(layouts, rects, children, 0, shape_of(children, 0));
            &&& out[0].size.x == (if w1 > w2 {
                w1
            } else {
                w2
            })
            &&& out[0].size.y == h1 + h2
        }),
{
    let s = Shape::Node { id: 0, kids: seq![leaf(1), leaf(2)] };
    assert(shape_matches(children, 0, s)) by {
        assert(children[0]@[0] == 1usize);
        assert(children[0]@[1] == 2usize);
        assert(shape_matches(children, 1, leaf(1)));
        assert(shape_matches(children, 2, leaf(2)));
    }
    assert(shape_matches(children, 0, shape_of(children, 0)));
    lemma_shape_unique(children, 0, shape_of(children, 0), s);
    let out = spec_solve(layouts, rects, children, 0, s);
    assert(out[0].size.x == (if w1 > w2 {
        w1
    } else {
        w2
    }) && out[0].size.y == h1 + h2) by {
        reveal_with_fuel(crate::compute::spec_recurse_fixed, 4);
        reveal_with_fuel(crate::compute::rf_kids, 4);
        reveal_with_fuel(crate::compute::spec_recurse_grow, 4);
        reveal_with_fuel(crate::compute::rg_kids, 4);
        reveal_with_fuel(crate::compute::spec_recurse_positions, 4);
        reveal_with_fuel(crate::compute::rp_kids, 4);
        reveal_with_fuel(crate::passes::fixed_percents, 4);
        reveal_with_fuel(crate::passes::fit_total, 4);
        reveal_with_fuel(crate::passes::fit_max, 4);
        reveal_with_fuel(crate::passes::expand_across_fold, 4);
        reveal_with_fuel(crate::passes::expand_gather, 4);
        reveal_with_fuel(crate::passes::assign_fold, 4);
        reveal_with_fuel(crate::passes::clip_fold, 4);
        reveal_with_fuel(crate::passes::expand_loop, 4);
        reveal_with_fuel(crate::passes::positions_fold, 4);
        reveal_with_fuel(crate::passes::auto_gap_remaining, 4);
    }
}

/// Two `Fixed` children under a horizontal `Fit`-by-`Fit` node, with no
/// margins, padding or gap: the node's width is the sum of the child widths,
/// its height the larger child height.
#[verifier::rlimit(100)]
pub proof fn law_fit_horizontal(
    layouts: Seq<Layout>,
    rects: Seq<Rect>,
    children: Seq<Vec<usize>>,
    w1: i32,
    h1: i32,
    w2: i32,
    h2: i32,
)
    requires
        layouts.len() == 3,
        rects.len() == 3,
        children.len() == 3,
        children[0]@ == seq![1usize, 2usize],
        children[1]@.len() == 0,
        children[2]@.len() == 0,
        layouts[0] == (Layout {
            direction: crate::direction::Direction::Horizontal(crate::direction::Align::Start),
            ..Layout::spec_default()
        }),
        layouts[1] == (Layout {
            size: Axes { x: Size::Fixed(w1), y: Size::Fixed(h1) },
            ..Layout::spec_default()
        }),
        layouts[2] == (Layout {
            size: Axes { x: Size::Fixed(w2), y: Size::Fixed(h2) },
            ..Layout::spec_default()
        }),
        0 <= w1 <= 1000000,
        0 <= h1 <= 1000000,
        0 <= w2 <= 1000000,
        0 <= h2 <= 1000000,
    ensures
        ({
            let out = spec_solve(layouts, rects, children, 0, shape_of(children, 0));
            &&& out[0].size.x == w1 + w2
            &&& out[0].size.y == (if h1 > h2 {
                h1
            } else {
                h2
            })
        }),
{
    let s = Shape::Node { id: 0, kids: seq![leaf(1), leaf(2)] };
    assert(shape_matches(children, 0, s)) by {
        assert(children[0]@[0] == 1usize);
        assert(children[0]@[1] == 2usize);
        assert(shape_matches(children, 1, leaf(1)));
        assert(shape_matches(children, 2, leaf(2)));
    }
    assert(shape_matches(children, 0, shape_of(children, 0)));
    lemma_shape_unique(children, 0, shape_of(children, 0), s);
    let out = spec_solve(layouts, rects, children, 0, s);
    assert(out[0].size.x == w1 + w2 && out[0].size.y == (if h1 > h2 {
        h1
    } else {
        h2
    })) by {
        reveal_with_fuel(crate::compute::spec_recurse_fixed, 4);
        reveal_with_fuel(crate::compute::rf_kids, 4);
        reveal_with_fuel(crate::compute::spec_recurse_grow, 4);
        reveal_with_fuel(crate::compute::rg_kids, 4);
        reveal_with_fuel(crate::compute::spec_recurse_positions, 4);
        reveal_with_fuel(crate::compute::rp_kids, 4);
        reveal_with_fuel(crate::passes::fixed_percents, 4);
        reveal_with_fuel(crate::passes::fit_total, 4);
        reveal_with_fuel(crate::passes::fit_max, 4);
        reveal_with_fuel(crate::passes::expand_across_fold, 4);
        reveal_with_fuel(crate::passes::expand_gather, 4);
        reveal_with_fuel(crate::passes::assign_fold, 4);
        reveal_with_fuel(crate::passes::clip_fold, 4);
        reveal_with_fuel(crate::passes::expand_loop, 4);
        reveal_with_fuel(crate::passes::positions_fold, 4);
        reveal_with_fuel(crate::passes::auto_gap_remaining, 4);
    }
}

/// Two expandable children under a vertical `Fixed(1600, 1600)` node with
/// uniform child margin `m`, uniform node padding `p` and fixed gap `g`,
/// whatever geometry was computed before: each fills the width left by
/// margins and padding, and each receives its weight's rounded share of the
/// remaining height.
#[verifier::rlimit(100)]
pub proof fn law_expand_proportionality(
    layouts: Seq<Layout>,
    rects: Seq<Rect>,
    children: Seq<Vec<usize>>,
    fr1: u32,
    fr2: u32,
    m: i32,
    p: i32,
    g: i32,
)
    requires
        layouts.len() == 3,
        rects.len() == 3,
        children.len() == 3,
        children[0]@ == seq![1usize, 2usize],
        children[1]@.len() == 0,
        children[2]@.len() == 0,
        layouts[0] == (Layout {
            size: Axes { x: Size::Fixed(1600), y: Size::Fixed(1600) },
            padding: crate::insets::Insets {
                start: Axes { x: p, y: p },
                end: Axes { x: p, y: p },
            },
            gap: crate::gap::Gap::Fixed(g),
            ..Layout::spec_default()
        }),
        layouts[1] == (Layout {
            size: Axes { x: Size::Expand(fr1), y: Size::Expand(fr1) },
            margin: crate::insets::Insets {
                start: Axes { x: m, y: m },
                end: Axes { x: m, y: m },
            },
            ..Layout::spec_default()
        }),
        layouts[2] == (Layout {
            size: Axes { x: Size::Expand(fr2), y: Size::Expand(fr2) },
            margin: crate::insets::Insets {
                start: Axes { x: m, y: m },
                end: Axes { x: m, y: m },
            },
            ..Layout::spec_default()
        }),
        0 <= m,
        0 <= p,
        0 <= g,
        4 * m + 2 * p + g <= 1600,
        fr1 + fr2 > 0,
    ensures
        ({
            let out = spec_solve(layouts, rects, children, 0, shape_of(children, 0));
            let avail = 1600 - 4 * m - 2 * p - g;
            let tot = fr1 + fr2;
            &&& out[1].size.x == 1600 - 2 * m - 2 * p
            &&& out[2].size.x == 1600 - 2 * m - 2 * p
            &&& out[1].size.y == crate::num::round_div(avail * fr1, tot as int)
            &&& out[2].size.y == crate::num::round_div(avail * fr2, tot as int)
        }),
{
    let s = Shape::Node { id: 0, kids: seq![leaf(1), leaf(2)] };
    assert(shape_matches(children, 0, s)) by {
        assert(children[0]@[0] == 1usize);
        assert(children[0]@[1] == 2usize);
        assert(shape_matches(children, 1, leaf(1)));
        assert(shape_matches(children, 2, leaf(2)));
    }
    assert(shape_matches(children, 0, shape_of(children, 0)));
    lemma_shape_unique(children, 0, shape_of(children, 0), s);
    let out = spec_solve(layouts, rects, children, 0, s);
    let avail = 1600 - 4 * m - 2 * p - g;
    let tot = fr1 + fr2;
    crate::num::lemma_round_div_bounds(avail as int, fr1 as int, tot as int);
    crate::num::lemma_round_div_bounds(avail as int, fr2 as int, tot as int);
    let r1 = crate::compute::spec_recurse_fixed(layouts, rects, children, 0, 0, s);
    let r2 = crate::compute::spec_recurse_grow(layouts, r1, children, 0, 0, s);
    let r3 = crate::compute::spec_recurse_fixed(layouts, r2, children, 0, 1, s);
    let r4 = crate::compute::spec_recurse_grow(layouts, r3, children, 0, 1, s);
    assert(r1.len() == 3 && r1[0].size.x == 1600 && r1[1].size.x == 0 && r1[2].size.x == 0
        && r1[1] == rects[1].with_size(0, 0) && r1[2] == rects[2].with_size(0, 0)) by {
        reveal_with_fuel(crate::compute::spec_recurse_fixed, 4);
        reveal_with_fuel(crate::compute::rf_kids, 4);
        reveal_with_fuel(crate::passes::fixed_percents, 4);
    }
    assert(r2.len() == 3 && r2[0].size.x == 1600 && r2[1].size.x == 1600 - 2 * m - 2 * p
        && r2[2].size.x == 1600 - 2 * m - 2 * p) by {
        reveal_with_fuel(crate::compute::spec_recurse_grow, 4);
        reveal_with_fuel(crate::compute::rg_kids, 4);
        reveal_with_fuel(crate::passes::expand_across_fold, 4);
        reveal_with_fuel(crate::passes::expand_gather, 4);
        reveal_with_fuel(crate::passes::assign_fold, 4);
        reveal_with_fuel(crate::passes::clip_fold, 4);
        reveal_with_fuel(crate::passes::expand_loop, 4);
    }
    assert(r3.len() == 3 && r3[0].size.y == 1600 && r3[1].size.y == 0 && r3[2].size.y == 0
        && r3[0].size.x == 1600 && r3[1].size.x == 1600 - 2 * m - 2 * p && r3[2].size.x == 1600 - 2
        * m - 2 * p) by {
        reveal_with_fuel(crate::compute::spec_recurse_fixed, 4);
        reveal_with_fuel(crate::compute::rf_kids, 4);
        reveal_with_fuel(crate::passes::fixed_percents, 4);
    }
    assert(crate::compute::rg_kids(layouts, r3, children, 1, s.kids()) == r3
        && r4 == crate::passes::spec_expand_along(layouts, r3, children, 0, 1)) by {
        reveal_with_fuel(crate::compute::spec_recurse_grow, 4);
        reveal_with_fuel(crate::compute::rg_kids, 4);
        reveal_with_fuel(crate::passes::expand_gather, 4);
        reveal_with_fuel(crate::passes::expand_loop, 4);
    }
    assert(crate::passes::expand_gather(layouts, r3, children, 0, 1, 2)
        == (((fr1 + fr2) as int, seq![1usize, 2usize], 4 * m as int))) by {
        reveal_with_fuel(crate::passes::expand_gather, 4);
        assert(crate::passes::expand_gather(layouts, r3, children, 0, 1, 2).1
            =~= seq![1usize, 2usize]);
    }
    assert(r4.len() == 3 && r4[1].size.y == crate::num::round_div(avail * fr1, tot as int)
        && r4[2].size.y == crate::num::round_div(avail * fr2, tot as int) && r4[1].size.x == 1600
        - 2 * m - 2 * p && r4[2].size.x == 1600 - 2 * m - 2 * p) by {
        reveal_with_fuel(crate::compute::spec_recurse_grow, 4);
        reveal_with_fuel(crate::compute::rg_kids, 4);
        reveal_with_fuel(crate::passes::expand_across_fold, 4);
        reveal_with_fuel(crate::passes::expand_gather, 4);
        reveal_with_fuel(crate::passes::assign_fold, 4);
        reveal_with_fuel(crate::passes::clip_fold, 4);
        reveal_with_fuel(crate::passes::expand_loop, 4);
        crate::num::lemma_round_div_bounds(avail as int, fr1 as int, tot as int);
        crate::num::lemma_round_div_bounds(avail as int, fr2 as int, tot as int);
    }
    assert(out[1].size.x == 1600 - 2 * m - 2 * p && out[2].size.x == 1600 - 2 * m - 2 * p
        && out[1].size.y == crate::num::round_div(avail * fr1, tot as int) && out[2].size.y
        == crate::num::round_div(avail * fr2, tot as int)) by {
        reveal_with_fuel(crate::compute::spec_recurse_positions, 4);
        reveal_with_fuel(crate::compute::rp_kids, 4);
        reveal_with_fuel(crate::passes::positions_fold, 4);
        reveal_with_fuel(crate::passes::auto_gap_remaining, 4);
    }
}

/// Integer division by a positive divisor is superadditive in the numerator.
proof fn lemma_div_subadd(x: int, y: int, d: int)
    requires
        x >= 0,
        y >= 0,
        d > 0,
    ensures
        x / d + y / d <= (x + y) / d,
{
    vstd::arithmetic::div_mod::lemma_fundamental_div_mod(x, d);
    vstd::arithmetic::div_mod::lemma_fundamental_div_mod(y, d);
    vstd::arithmetic::div_mod::lemma_mod_bound(x, d);
    vstd::arithmetic::div_mod::lemma_mod_bound(y, d);
    assert(d * (x / d) + d * (y / d) == d * (x / d + y / d)) by (nonlinear_arith);
    vstd::arithmetic::div_mod::lemma_div_multiples_vanish(x / d + y / d, d);
    vstd::arithmetic::div_mod::lemma_div_is_ordered(d * (x / d + y / d), x + y, d);
}

/// In the same scene as the proportionality law, the expanded children stay
/// inside the space distributed to them: each solved height is non-negative,
/// and their sum never exceeds the remaining height by more than one pixel
/// of rounding per child.
pub proof fn law_expand_bounded_sum(
    layouts: Seq<Layout>,
    rects: Seq<Rect>,
    children: Seq<Vec<usize>>,
    fr1: u32,
    fr2: u32,
    m: i32,
    p: i32,
    g: i32,
)
    requires
        layouts.len() == 3,
        rects.len() == 3,
        children.len() == 3,
        children[0]@ == seq![1usize, 2usize],
        children[1]@.len() == 0,
        children[2]@.len() == 0,
        layouts[0] == (Layout {
            size: Axes { x: Size::Fixed(1600), y: Size::Fixed(1600) },
            padding: crate::insets::Insets {
                start: Axes { x: p, y: p },
                end: Axes { x: p, y: p },
            },
            gap: crate::gap::Gap::Fixed(g),
            ..Layout::spec_default()
        }),
        layouts[1] == (Layout {
            size: Axes { x: Size::Expand(fr1), y: Size::Expand(fr1) },
            margin: crate::insets::Insets {
                start: Axes { x: m, y: m },
                end: Axes { x: m, y: m },
            },
            ..Layout::spec_default()
        }),
        layouts[2] == (Layout {
            size: Axes { x: Size::Expand(fr2), y: Size::Expand(fr2) },
            margin: crate::insets::Insets {
                start: Axes { x: m, y: m },
                end: Axes { x: m, y: m },
            },
            ..Layout::spec_default()
        }),
        0 <= m,
        0 <= p,
        0 <= g,
        4 * m + 2 * p + g <= 1600,
        fr1 + fr2 > 0,
    ensures
        ({
            let out = spec_solve(layouts, rects, children, 0, shape_of(children, 0));
            let avail = 1600 - 4 * m - 2 * p - g;
            &&& 0 <= out[1].size.y
            &&& 0 <= out[2].size.y
            &&& out[1].size.y + out[2].size.y <= avail + 2
        }),
{
    law_expand_proportionality(layouts, rects, children, fr1, fr2, m, p, g);
    let out = spec_solve(layouts, rects, children, 0, shape_of(children, 0));
    let avail = 1600 - 4 * m - 2 * p - g;
    let tot = (fr1 + fr2) as int;
    crate::num::lemma_round_div_bounds(avail as int, fr1 as int, tot);
    crate::num::lemma_round_div_bounds(avail as int, fr2 as int, tot);
    let x = 2 * avail * fr1 + tot;
    let y = 2 * avail * fr2 + tot;
    assert(avail * fr1 >= 0 && avail * fr2 >= 0) by (nonlinear_arith)
        requires
            avail >= 0,
            fr1 >= 0,
            fr2 >= 0,
    ;
    assert(crate::num::round_div(avail * fr1, tot) == (2 * (avail * fr1) + tot) / (2 * tot));
    assert(crate::num::round_div(avail * fr2, tot) == (2 * (avail * fr2) + tot) / (2 * tot));
    lemma_div_subadd(2 * (avail * fr1) + tot, 2 * (avail * fr2) + tot, 2 * tot);
    assert((2 * (avail * fr1) + tot) + (2 * (avail * fr2) + tot) == (2 * tot) * (avail + 1))
        by (nonlinear_arith)
        requires
            tot == fr1 + fr2,
    ;
    vstd::arithmetic::div_mod::lemma_div_multiples_vanish(avail as int + 1, 2 * tot);
    assert(((2 * tot) * (avail + 1)) / (2 * tot) == avail + 1);
}

/// Two fixed-height children of heights `h1` and `h2` under a vertical
/// `Fit`-by-`Fixed(1600)` node with an `Auto` gap, uniform child margins `m`
/// and uniform node padding `p`: the gap takes all the remaining height, so
/// the second child's vertical position is the first child's bottom margin
/// edge plus that remainder.
#[verifier::rlimit(100)]
pub proof fn law_auto_gap_placement(
    layouts: Seq<Layout>,
    rects: Seq<Rect>,
    children: Seq<Vec<usize>>,
    h1: i32,
    h2: i32,
    m: i32,
    p: i32,
)
    requires
        layouts.len() == 3,
        rects.len() == 3,
        children.len() == 3,
        children[0]@ == seq![1usize, 2usize],
        children[1]@.len() == 0,
        children[2]@.len() == 0,
        rects[0].position.y == 0,
        layouts[0] == (Layout {
            size: Axes { x: Size::Fit, y: Size::Fixed(1600) },
            padding: crate::insets::Insets {
                start: Axes { x: p, y: p },
                end: Axes { x: p, y: p },
            },
            gap: crate::gap::Gap::Auto,
            ..Layout::spec_default()
        }),
        layouts[1] == (Layout {
            size: Axes { x: Size::Fit, y: Size::Fixed(h1) },
            margin: crate::insets::Insets {
                start: Axes { x: m, y: m },
                end: Axes { x: m, y: m },
            },
            ..Layout::spec_default()
        }),
        layouts[2] == (Layout {
            size: Axes { x: Size::Fit, y: Size::Fixed(h2) },
            margin: crate::insets::Insets {
                start: Axes { x: m, y: m },
                end: Axes { x: m, y: m },
            },
            ..Layout::spec_default()
        }),
        0 <= h1 <= 1000000,
        0 <= h2 <= 1000000,
        0 <= m <= 1000000,
        0 <= p <= 1000000,
    ensures
        ({
            let out = spec_solve(layouts, rects, children, 0, shape_of(children, 0));
            out[2].position.y == p + 3 * m + h1 + (1600 - 2 * p - 4 * m - h1 - h2)
        }),
{
    let s = Shape::Node { id: 0, kids: seq![leaf(1), leaf(2)] };
    assert(shape_matches(children, 0, s)) by {
        assert(children[0]@[0] == 1usize);
        assert(children[0]@[1] == 2usize);
        assert(shape_matches(children, 1, leaf(1)));
        assert(shape_matches(children, 2, leaf(2)));
    }
    assert(shape_matches(children, 0, shape_of(children, 0)));
    lemma_shape_unique(children, 0, shape_of(children, 0), s);
    let out = spec_solve(layouts, rects, children, 0, s);
    assert(out[2].position.y == p + 3 * m + h1 + (1600 - 2 * p - 4 * m - h1 - h2)) by {
        reveal_with_fuel(crate::compute::spec_recurse_fixed, 4);
        reveal_with_fuel(crate::compute::rf_kids, 4);
        reveal_with_fuel(crate::compute::spec_recurse_grow, 4);
        reveal_with_fuel(crate::compute::rg_kids, 4);
        reveal_with_fuel(crate::compute::spec_recurse_positions, 4);
        reveal_with_fuel(crate::compute::rp_kids, 4);
        reveal_with_fuel(crate::passes::fixed_percents, 4);
        reveal_with_fuel(crate::passes::fit_total, 4);
        reveal_with_fuel(crate::passes::fit_max, 4);
        reveal_with_fuel(crate::passes::expand_across_fold, 4);
        reveal_with_fuel(crate::passes::expand_gather, 4);
        reveal_with_fuel(crate::passes::assign_fold, 4);
        reveal_with_fuel(crate::passes::clip_fold, 4);
        reveal_with_fuel(crate::passes::expand_loop, 4);
        reveal_with_fuel(crate::passes::positions_fold, 4);
        reveal_with_fuel(crate::passes::auto_gap_remaining, 4);
    }
}

} // verus!
