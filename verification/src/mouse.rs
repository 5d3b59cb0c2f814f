//! Pointer hit-testing.

use vstd::prelude::*;

use crate::num::{add_sat, sat32};
use crate::passes::state_ok;
use crate::rect::Rect;
use crate::tree::{lemma_kid_matches, shape_matches, shape_of, Shape};

verus! {

/// Whether a point lies inside a rectangle; both edges count as inside.
pub open spec fn point_in(r: Rect, mx: int, my: int) -> bool {
    &&& r.position.x <= mx <= sat32(r.size.x + r.position.x)
    &&& r.position.y <= my <= sat32(r.size.y + r.position.y)
}

/// The deepest node containing a point, earliest-declared sibling first: a
/// node outside the point yields nothing; otherwise the first child subtree
/// that yields a hit wins, and with none the node itself is the hit.
pub open spec fn spec_hit(rects: Seq<Rect>, s: Shape, mx: int, my: int) -> Option<int>
    decreases s, 1int,
{
    if !point_in(rects[s.id()], mx, my) {
        None
    } else {
        match hit_kids(rects, s.kids(), mx, my) {
            Some(i) => Some(i),
            None => Some(s.id()),
        }
    }
}

/// The first hit among a list of subtrees.
pub open spec fn hit_kids(rects: Seq<Rect>, kids: Seq<Shape>, mx: int, my: int) -> Option<int>
    decreases kids, 0int,
{
    if kids.len() == 0 {
        None
    } else {
        match spec_hit(rects, kids[0], mx, my) {
            Some(i) => Some(i),
            None => hit_kids(rects, kids.drop_first(), mx, my),
        }
    }
}

/// A hit names a slot of the tree.
pub proof fn lemma_hit_in_range(
    rects: Seq<Rect>,
    children: Seq<Vec<usize>>,
    s: Shape,
    mx: int,
    my: int,
)
    requires
        shape_matches(children, s.id(), s),
    ensures
        match spec_hit(rects, s, mx, my) {
            Some(i) => 0 <= i < children.len(),
            None => true,
        },
    decreases s, 1int,
{
    if point_in(rects[s.id()], mx, my) {
        assert(s.kids().skip(0) =~= s.kids());
        lemma_hit_kids_in_range(rects, children, s, s.kids().len() as int, mx, my);
    }
}

/// A hit among the last `k` subtrees names a slot of the tree.
proof fn lemma_hit_kids_in_range(
    rects: Seq<Rect>,
    children: Seq<Vec<usize>>,
    s: Shape,
    k: int,
    mx: int,
    my: int,
)
    requires
        shape_matches(children, s.id(), s),
        0 <= k <= s.kids().len(),
    ensures
        match hit_kids(rects, s.kids().skip(s.kids().len() - k), mx, my) {
            Some(i) => 0 <= i < children.len(),
            None => true,
        },
    decreases s, 0int, k,
{
    if k > 0 {
        let kids = s.kids();
        let j = kids.len() - k;
        let pre = kids.skip(j);
        assert(pre[0] == kids[j]);
        lemma_kid_matches(children, s.id(), s, j);
        assert(kids[j].id() == children[s.id()]@[j] as int);
        lemma_hit_in_range(rects, children, kids[j], mx, my);
        assert(pre.drop_first() =~= kids.skip(j + 1));
        lemma_hit_kids_in_range(rects, children, s, k - 1, mx, my);
    }
}

/// The hit test along a known subtree shape.
fn hit_node(
    index: usize,
    rects: &Vec<Rect>,
    children: &Vec<Vec<usize>>,
    mouse: &[i32; 2],
    Ghost(s): Ghost<Shape>,
) -> (r: Option<usize>)
    requires
        rects@.len() == children@.len(),
        shape_matches(children@, index as int, s),
    ensures
        match spec_hit(rects@, s, mouse[0] as int, mouse[1] as int) {
            Some(i) => r == Some(i as usize),
            None => r is None,
        },
    decreases s,
{
    // 1. Check if the point is inside this rect
    let rect = &rects[index];
    if mouse[0] < rect.position.x || add_sat(rect.size.x, rect.position.x) < mouse[0] || mouse[1]
        < rect.position.y || add_sat(rect.size.y, rect.position.y) < mouse[1] {
        // if not, stop
        return None;
    }

    // 2. Recurse through children: the first hit wins
    let n = children[index].len();
    assert(s.kids().skip(0) =~= s.kids());
    let mut k: usize = 0;
    while k < n
        invariant
            rects@.len() == children@.len(),
            shape_matches(children@, index as int, s),
            k <= n,
            n == children@[index as int]@.len(),
            point_in(rects@[index as int], mouse[0] as int, mouse[1] as int),
            hit_kids(rects@, s.kids().skip(k as int), mouse[0] as int, mouse[1] as int) == hit_kids(
                rects@,
                s.kids(),
                mouse[0] as int,
                mouse[1] as int,
            ),
        decreases n - k,
    {
        let idx = children[index][k];
        proof {
            lemma_kid_matches(children@, index as int, s, k as int);
        }
        let hit = hit_node(idx, rects, children, mouse, Ghost(s.kids()[k as int]));
        proof {
            let kids = s.kids();
            let pre = kids.skip(k as int);
            assert(pre[0] == kids[k as int]);
            assert(pre.drop_first() =~= kids.skip(k + 1 as int));
        }
        if let Some(found) = hit {
            return Some(found);
        }
        k = k + 1;
    }

    proof {
        assert(s.kids().skip(n as int).len() == 0);
        assert(hit_kids(rects@, s.kids(), mouse[0] as int, mouse[1] as int) is None);
    }
    Some(index)
}

/// Recursively find the childmost rectangle containing the given point,
/// walking children in list order so the earliest-declared sibling wins.
pub fn recurse_mouse(
    index: usize,
    rects: &Vec<Rect>,
    children: &Vec<Vec<usize>>,
    mouse: &[i32; 2],
) -> (r: Option<usize>)
    requires
        rects@.len() == children@.len(),
        index < rects@.len(),
        exists|s: Shape| shape_matches(children@, index as int, s),
    ensures
        match spec_hit(
            rects@,
            shape_of(children@, index as int),
            mouse[0] as int,
            mouse[1] as int,
        ) {
            Some(i) => r == Some(i as usize),
            None => r is None,
        },
{
    let ghost s = shape_of(children@, index as int);
    proof {
        assert(shape_matches(children@, index as int, s));
    }
    hit_node(index, rects, children, mouse, Ghost(s))
}

} // verus!
