//! Ghost model of the node tree stored in the flat arenas.
//!
//! Every arena keeps, per slot, a ghost `Shape`: the subtree rooted at that
//! slot, written out as a tree value. Recursive traversals terminate because
//! they descend along a `Shape`, and the redraw resolver's uniqueness
//! guarantees follow from the shapes' duplicate-free preorders.

use vstd::prelude::*;

verus! {

/// The shape of a subtree: the slot index at its root, and the shapes of its
/// children, in child-list order. A ghost value; the executable arenas store
/// the same structure as flat `Vec`s of children indices.
pub enum Shape {
    Node { id: int, kids: Seq<Shape> },
}

impl Shape {
    /// The slot index at the root of this shape.
    pub open spec fn id(self) -> int {
        match self {
            Shape::Node { id, .. } => id,
        }
    }

    /// The shapes of the children, in child-list order.
    pub open spec fn kids(self) -> Seq<Shape> {
        match self {
            Shape::Node { kids, .. } => kids,
        }
    }
}

/// A shape describes exactly the subtree reachable from slot `i` through the
/// children lists: same root, same number of children, and each child shape
/// describes the corresponding child slot.
pub open spec fn shape_matches(children: Seq<Vec<usize>>, i: int, s: Shape) -> bool
    decreases s,
{
    &&& s.id() == i
    &&& 0 <= i < children.len()
    &&& s.kids().len() == children[i]@.len()
    &&& forall|k: int|
        0 <= k < s.kids().len() ==> shape_matches(
            children,
            #[trigger] children[i]@[k] as int,
            s.kids()[k],
        )
}

/// A matching shape hands each child slot a matching kid shape.
pub proof fn lemma_kid_matches(children: Seq<Vec<usize>>, i: int, s: Shape, k: int)
    requires
        shape_matches(children, i, s),
        0 <= k < s.kids().len(),
    ensures
        shape_matches(children, children[i]@[k] as int, s.kids()[k]),
        s.kids()[k].id() == children[i]@[k] as int,
{
    assert(shape_matches(children, children[i]@[k] as int, s.kids()[k]));
    let kid = s.kids()[k];
    assert(kid.id() == children[i]@[k] as int) by {
        assert(shape_matches(children, children[i]@[k] as int, kid));
    }
}

/// The shape of the subtree rooted at slot `i`: the one shape that matches it,
/// where one exists.
pub open spec fn shape_of(children: Seq<Vec<usize>>, i: int) -> Shape {
    choose|s: Shape| shape_matches(children, i, s)
}

/// The children lists determine the shape: two shapes matching the same slot
/// are equal.
pub proof fn lemma_shape_unique(children: Seq<Vec<usize>>, i: int, s1: Shape, s2: Shape)
    requires
        shape_matches(children, i, s1),
        shape_matches(children, i, s2),
    ensures
        s1 == s2,
    decreases s1,
{
    assert forall|k: int| 0 <= k < s1.kids().len() implies s1.kids()[k] == s2.kids()[k] by {
        lemma_shape_unique(children, children[i]@[k] as int, s1.kids()[k], s2.kids()[k]);
    }
    assert(s1.kids() =~= s2.kids());
}

/// A shape with no children.
pub open spec fn leaf(id: int) -> Shape {
    Shape::Node { id: id, kids: Seq::empty() }
}

/// The shape after a new leaf `ch` is attached under every node `p`: each
/// node keeps its kids, transformed, and `p` gains the leaf at the end.
pub open spec fn attach_shape(s: Shape, p: int, ch: int) -> Shape
    decreases s, 1int,
{
    let kids2 = attach_kids(s.kids(), p, ch);
    if s.id() == p {
        Shape::Node { id: s.id(), kids: kids2.push(leaf(ch)) }
    } else {
        Shape::Node { id: s.id(), kids: kids2 }
    }
}

/// The attach transform over a list of shapes.
pub open spec fn attach_kids(kids: Seq<Shape>, p: int, ch: int) -> Seq<Shape>
    decreases kids, 0int,
{
    if kids.len() == 0 {
        Seq::empty()
    } else {
        seq![attach_shape(kids[0], p, ch)] + attach_kids(kids.drop_first(), p, ch)
    }
}

/// The attach transform maps the list pointwise.
pub proof fn lemma_attach_kids_index(kids: Seq<Shape>, p: int, ch: int)
    ensures
        attach_kids(kids, p, ch).len() == kids.len(),
        forall|k: int|
            0 <= k < kids.len() ==> attach_kids(kids, p, ch)[k] == attach_shape(
                #[trigger] kids[k],
                p,
                ch,
            ),
    decreases kids,
{
    if kids.len() > 0 {
        lemma_attach_kids_index(kids.drop_first(), p, ch);
        assert forall|k: int| 0 <= k < kids.len() implies attach_kids(kids, p, ch)[k]
            == attach_shape(#[trigger] kids[k], p, ch) by {
            if k > 0 {
                assert(kids.drop_first()[k - 1] == kids[k]);
            }
        }
    }
}

/// Growing the arena beyond the slots a shape touches does not disturb the
/// match.
pub proof fn lemma_matches_extend(c0: Seq<Vec<usize>>, c1: Seq<Vec<usize>>, i: int, s: Shape)
    requires
        shape_matches(c0, i, s),
        c1.len() >= c0.len(),
        forall|x: int| 0 <= x < c0.len() ==> c1[x]@ == #[trigger] c1[x]@ && c1[x]@ == c0[x]@,
    ensures
        shape_matches(c1, i, s),
    decreases s,
{
    assert(c1[i]@ == c0[i]@);
    assert forall|k: int| 0 <= k < s.kids().len() implies shape_matches(
        c1,
        #[trigger] c1[i]@[k] as int,
        s.kids()[k],
    ) by {
        lemma_kid_matches(c0, i, s, k);
        lemma_matches_extend(c0, c1, c0[i]@[k] as int, s.kids()[k]);
    }
}

/// After a fresh, childless slot `ch` is pushed onto node `p`'s child list,
/// the transformed shape matches again.
pub proof fn lemma_attach_matches(
    c0: Seq<Vec<usize>>,
    c1: Seq<Vec<usize>>,
    i: int,
    s: Shape,
    p: int,
    ch: usize,
)
    requires
        shape_matches(c0, i, s),
        c1.len() >= c0.len(),
        0 <= p < c0.len(),
        forall|x: int| 0 <= x < c0.len() && x != p ==> (#[trigger] c1[x]@) == c0[x]@,
        c1[p]@ == c0[p]@.push(ch),
        ch < c1.len(),
        c1[ch as int]@.len() == 0,
    ensures
        shape_matches(c1, i, attach_shape(s, p, ch as int)),
    decreases s,
{
    lemma_attach_kids_index(s.kids(), p, ch as int);
    let s2 = attach_shape(s, p, ch as int);
    assert forall|k: int| 0 <= k < s2.kids().len() implies shape_matches(
        c1,
        #[trigger] c1[i]@[k] as int,
        s2.kids()[k],
    ) by {
        if k < s.kids().len() {
            lemma_kid_matches(c0, i, s, k);
            lemma_attach_matches(c0, c1, c0[i]@[k] as int, s.kids()[k], p, ch);
            assert(c1[i]@.len() == c0[i]@.len() || i == p);
            if i == p {
                assert(c1[i]@[k] == c0[i]@[k]);
            } else {
                assert(c1[i]@ == c0[i]@);
            }
            assert(s2.kids()[k] == attach_shape(s.kids()[k], p, ch as int));
            assert(shape_matches(c1, c1[i]@[k] as int, s2.kids()[k]));
        } else {
            // the appended leaf under p
            assert(i == p);
            assert(c1[i]@[k] == ch);
            assert(s2.kids()[k] == leaf(ch as int));
            assert(shape_matches(c1, ch as int, leaf(ch as int)));
        }
    }
    if i == p {
        assert(c1[i]@.len() == s2.kids().len());
    }
}

/// Preorder traversal of a shape: the root first, then each child subtree in
/// child-list order.
pub open spec fn preorder(s: Shape) -> Seq<int>
    decreases s,
{
    seq![s.id()] + preorder_kids(s.kids())
}

/// Concatenated preorders of a list of shapes.
pub open spec fn preorder_kids(kids: Seq<Shape>) -> Seq<int>
    decreases kids,
{
    if kids.len() == 0 {
        Seq::empty()
    } else {
        preorder(kids[0]) + preorder_kids(kids.drop_first())
    }
}

/// Whether `t` is a subtree of `s` (possibly `s` itself).
pub open spec fn subshape(s: Shape, t: Shape) -> bool
    decreases s,
{
    s == t || exists|k: int| 0 <= k < s.kids().len() && subshape(#[trigger] s.kids()[k], t)
}

/// Where kid `k`'s preorder starts inside the concatenated preorder of the
/// whole list.
pub open spec fn pk_offset(kids: Seq<Shape>, k: int) -> int
    decreases k,
{
    if k <= 0 {
        0
    } else {
        preorder(kids[0]).len() + pk_offset(kids.drop_first(), k - 1)
    }
}

/// Kid `k`'s preorder sits verbatim inside the concatenated preorder, at its
/// offset.
pub proof fn lemma_pk_embed(kids: Seq<Shape>, k: int)
    requires
        0 <= k < kids.len(),
    ensures
        0 <= pk_offset(kids, k),
        pk_offset(kids, k) + preorder(kids[k]).len() <= preorder_kids(kids).len(),
        forall|i: int|
            0 <= i < preorder(kids[k]).len() ==> preorder_kids(kids)[pk_offset(kids, k) + i]
                == #[trigger] preorder(kids[k])[i],
    decreases k,
{
    if k == 0 {
        assert(preorder_kids(kids) == preorder(kids[0]) + preorder_kids(kids.drop_first()));
    } else {
        lemma_pk_embed(kids.drop_first(), k - 1);
        assert(kids.drop_first()[k - 1] == kids[k]);
        let off = pk_offset(kids, k);
        let off1 = pk_offset(kids.drop_first(), k - 1);
        assert(off == preorder(kids[0]).len() + off1);
        assert forall|i: int| 0 <= i < preorder(kids[k]).len() implies preorder_kids(kids)[off + i]
            == #[trigger] preorder(kids[k])[i] by {
            assert(preorder_kids(kids) == preorder(kids[0]) + preorder_kids(kids.drop_first()));
            assert(preorder_kids(kids.drop_first())[off1 + i] == preorder(
                kids.drop_first()[k - 1],
            )[i]);
        }
    }
}

/// An id inside the concatenated preorders lies in one of the subtrees.
pub proof fn lemma_pk_member(kids: Seq<Shape>, x: int)
    requires
        preorder_kids(kids).contains(x),
    ensures
        exists|k: int| 0 <= k < kids.len() && preorder(#[trigger] kids[k]).contains(x),
    decreases kids,
{
    let a = preorder(kids[0]);
    let b = preorder_kids(kids.drop_first());
    assert(preorder_kids(kids) == a + b);
    let j = choose|j: int| 0 <= j < (a + b).len() && (a + b)[j] == x;
    if j < a.len() {
        assert(a[j] == x);
        assert(preorder(kids[0]).contains(x));
    } else {
        assert(b[j - a.len()] == x);
        assert(b.contains(x));
        lemma_pk_member(kids.drop_first(), x);
        let k = choose|k: int|
            0 <= k < kids.drop_first().len() && preorder(kids.drop_first()[k]).contains(x);
        assert(kids.drop_first()[k] == kids[k + 1]);
        assert(preorder(kids[k + 1]).contains(x));
    }
}

/// A subtree's root appears in the preorder, and every id of the subtree's
/// preorder appears after it: the preorder keeps ancestors before their
/// descendants.
pub proof fn lemma_pre_positions(s: Shape, t: Shape, b: int)
    requires
        subshape(s, t),
        preorder(t).contains(b),
        b != t.id(),
    ensures
        exists|i: int, j: int|
            0 <= i < j < preorder(s).len() && preorder(s)[i] == t.id() && preorder(s)[j] == b,
    decreases s,
{
    if s == t {
        let j = choose|j: int| 0 <= j < preorder(s).len() && preorder(s)[j] == b;
        assert(preorder(s)[0] == s.id());
        assert(j != 0);
        assert(0 <= 0 < j < preorder(s).len() && preorder(s)[0] == t.id() && preorder(s)[j] == b);
    } else {
        let k = choose|k: int| 0 <= k < s.kids().len() && subshape(s.kids()[k], t);
        lemma_pre_positions(s.kids()[k], t, b);
        let (i1, j1) = choose|i1: int, j1: int|
            0 <= i1 < j1 < preorder(s.kids()[k]).len() && preorder(s.kids()[k])[i1] == t.id()
                && preorder(s.kids()[k])[j1] == b;
        lemma_pk_embed(s.kids(), k);
        let off = pk_offset(s.kids(), k);
        let i = 1 + off + i1;
        let j = 1 + off + j1;
        assert(preorder(s) == seq![s.id()] + preorder_kids(s.kids()));
        assert(preorder(s)[i] == preorder_kids(s.kids())[off + i1]);
        assert(preorder(s)[j] == preorder_kids(s.kids())[off + j1]);
        assert(0 <= i < j < preorder(s).len() && preorder(s)[i] == t.id() && preorder(s)[j] == b);
    }
}


/// Every id of a matching shape's preorder is a slot index.
pub proof fn lemma_pre_bounded(children: Seq<Vec<usize>>, i: int, s: Shape)
    requires
        shape_matches(children, i, s),
    ensures
        forall|x: int|
            #[trigger] preorder(s).contains(x) ==> 0 <= x < children.len(),
    decreases s,
{
    assert forall|x: int| #[trigger] preorder(s).contains(x) implies 0 <= x < children.len() by {
        let j = choose|j: int| 0 <= j < preorder(s).len() && preorder(s)[j] == x;
        assert(preorder(s) == seq![s.id()] + preorder_kids(s.kids()));
        if j == 0 {
        } else {
            assert(s.kids().skip(0) =~= s.kids());
            assert(preorder_kids(s.kids())[j - 1] == x);
            lemma_pre_bounded_kids(children, i, s, s.kids().len() as int, x, j - 1);
        }
    }
}

/// Every id inside the last `k` kids' concatenated preorders is a slot index.
proof fn lemma_pre_bounded_kids(
    children: Seq<Vec<usize>>,
    i: int,
    s: Shape,
    k: int,
    x: int,
    j: int,
)
    requires
        shape_matches(children, i, s),
        0 <= k <= s.kids().len(),
        0 <= j < preorder_kids(s.kids().skip(s.kids().len() - k)).len(),
        preorder_kids(s.kids().skip(s.kids().len() - k))[j] == x,
    ensures
        0 <= x < children.len(),
    decreases s, 0int, k,
{
    let kids = s.kids();
    let at = kids.len() - k;
    let pre = kids.skip(at);
    assert(pre[0] == kids[at]);
    assert(pre.drop_first() =~= kids.skip(at + 1));
    lemma_kid_matches(children, i, s, at);
    if j < preorder(kids[at]).len() {
        lemma_pre_bounded(children, children[i]@[at] as int, kids[at]);
        assert(preorder(kids[at]).contains(x));
    } else {
        lemma_pre_bounded_kids(children, i, s, k - 1, x, j - preorder(kids[at]).len());
    }
}

/// A node the leaf does not hang under keeps its shape through the attach
/// transform.
pub proof fn lemma_attach_id(s: Shape, p: int, ch: int)
    requires
        !preorder(s).contains(p),
    ensures
        attach_shape(s, p, ch) == s,
    decreases s, 1int,
{
    assert(preorder(s)[0] == s.id());
    assert(preorder(s).contains(s.id()));
    lemma_attach_kids_index(s.kids(), p, ch);
    assert forall|k: int| 0 <= k < s.kids().len() implies attach_kids(s.kids(), p, ch)[k]
        == s.kids()[k] by {
        assert(!preorder(s.kids()[k]).contains(p)) by {
            if preorder(s.kids()[k]).contains(p) {
                let j = choose|j: int|
                    0 <= j < preorder(s.kids()[k]).len() && preorder(s.kids()[k])[j] == p;
                lemma_pk_embed(s.kids(), k);
                let off = pk_offset(s.kids(), k);
                assert(preorder(s) == seq![s.id()] + preorder_kids(s.kids()));
                assert(preorder(s)[1 + off + j] == p);
            }
        }
        lemma_attach_id(s.kids()[k], p, ch);
    }
    assert(attach_kids(s.kids(), p, ch) =~= s.kids());
}

/// The concatenated preorder of a list with one more shape at the end.
pub proof fn lemma_pk_snoc(kids: Seq<Shape>, t: Shape)
    ensures
        preorder_kids(kids.push(t)) == preorder_kids(kids) + preorder(t),
    decreases kids,
{
    if kids.len() == 0 {
        assert(kids.push(t)[0] == t);
        assert(kids.push(t).drop_first() =~= Seq::<Shape>::empty());
        assert(preorder_kids(kids.push(t)) == preorder(t) + preorder_kids(
            kids.push(t).drop_first(),
        ));
        assert(preorder_kids(kids.push(t).drop_first()) =~= Seq::<int>::empty());
        assert(preorder_kids(kids.push(t)) =~= preorder_kids(kids) + preorder(t));
    } else {
        assert(kids.push(t)[0] == kids[0]);
        assert(kids.push(t).drop_first() =~= kids.drop_first().push(t));
        lemma_pk_snoc(kids.drop_first(), t);
        assert(preorder_kids(kids.push(t)) =~= preorder_kids(kids) + preorder(t));
    }
}

/// Attaching a fresh leaf under a node of a duplicate-free tree keeps the
/// preorder duplicate-free and adds exactly the leaf's id, exactly when the
/// node is in the tree.
pub proof fn lemma_attach_preorder(s: Shape, p: int, ch: int)
    requires
        preorder(s).no_duplicates(),
        !preorder(s).contains(ch),
    ensures
        preorder(attach_shape(s, p, ch)).no_duplicates(),
        forall|x: int|
            #[trigger] preorder(attach_shape(s, p, ch)).contains(x) <==> (preorder(s).contains(x)
                || (x == ch && preorder(s).contains(p))),
    decreases s, 1int,
{
    let kids = s.kids();
    let pk = preorder_kids(kids);
    assert(preorder(s) == seq![s.id()] + pk);
    lemma_nodup_split_ids(seq![s.id()], pk);
    assert(!pk.contains(ch)) by {
        if pk.contains(ch) {
            let j = choose|j: int| 0 <= j < pk.len() && pk[j] == ch;
            assert(preorder(s)[1 + j] == ch);
        }
    }
    if s.id() == p {
        // by duplicate-freedom, p occurs nowhere below: the kids are kept
        assert forall|k: int| 0 <= k < kids.len() implies attach_kids(kids, p, ch)[k]
            == kids[k] by {
            lemma_attach_kids_index(kids, p, ch);
            assert(!preorder(kids[k]).contains(p)) by {
                if preorder(kids[k]).contains(p) {
                    let j = choose|j: int|
                        0 <= j < preorder(kids[k]).len() && preorder(kids[k])[j] == p;
                    lemma_pk_embed(kids, k);
                    assert(preorder(s)[1 + pk_offset(kids, k) + j] == p);
                    assert(preorder(s)[0] == p);
                }
            }
            lemma_attach_id(kids[k], p, ch);
        }
        lemma_attach_kids_index(kids, p, ch);
        assert(attach_kids(kids, p, ch) =~= kids);
        let s2 = attach_shape(s, p, ch);
        assert(s2.kids() == kids.push(leaf(ch)));
        lemma_pk_snoc(kids, leaf(ch));
        assert(preorder(leaf(ch)) =~= seq![ch]);
        assert(preorder(s2) =~= preorder(s) + seq![ch]);
        lemma_nodup_join_ids(preorder(s), seq![ch]);
        assert(preorder(s).contains(p)) by {
            assert(preorder(s)[0] == p);
        }
        assert forall|x: int| #[trigger]
            preorder(s2).contains(x) implies (preorder(s).contains(x) || (x == ch && preorder(
            s,
        ).contains(p))) by {
            let j = choose|j: int| 0 <= j < preorder(s2).len() && preorder(s2)[j] == x;
            if j < preorder(s).len() {
            } else {
                assert(x == ch);
            }
        }
        assert forall|x: int|
            (preorder(s).contains(x) || (x == ch && preorder(s).contains(p))) implies #[trigger]
        preorder(s2).contains(x) by {
            if preorder(s).contains(x) {
                let j = choose|j: int| 0 <= j < preorder(s).len() && preorder(s)[j] == x;
                assert(preorder(s2)[j] == x);
            } else {
                assert(preorder(s2)[preorder(s).len() as int] == ch);
            }
        }
    } else {
        lemma_attach_kids_preorder(kids, p, ch);
        let s2 = attach_shape(s, p, ch);
        let pk2 = preorder_kids(attach_kids(kids, p, ch));
        assert(preorder(s2) == seq![s.id()] + pk2);
        assert(!pk2.contains(s.id())) by {
            if pk2.contains(s.id()) {
                assert(pk.contains(s.id()) || (s.id() == ch && pk.contains(p)));
                if pk.contains(s.id()) {
                    let j = choose|j: int| 0 <= j < pk.len() && pk[j] == s.id();
                    assert(preorder(s)[1 + j] == s.id());
                    assert(preorder(s)[0] == s.id());
                } else {
                    assert(preorder(s)[0] == ch);
                    assert(preorder(s).contains(ch));
                }
            }
        }
        lemma_nodup_join_ids(seq![s.id()], pk2);
        assert forall|x: int| #[trigger]
            preorder(s2).contains(x) implies (preorder(s).contains(x) || (x == ch && preorder(
            s,
        ).contains(p))) by {
            let j = choose|j: int| 0 <= j < preorder(s2).len() && preorder(s2)[j] == x;
            if j == 0 {
                assert(preorder(s)[0] == x);
            } else {
                assert(pk2.contains(x));
                if pk.contains(x) {
                    let jj = choose|jj: int| 0 <= jj < pk.len() && pk[jj] == x;
                    assert(preorder(s)[1 + jj] == x);
                } else {
                    assert(x == ch && pk.contains(p));
                    let jj = choose|jj: int| 0 <= jj < pk.len() && pk[jj] == p;
                    assert(preorder(s)[1 + jj] == p);
                }
            }
        }
        assert forall|x: int|
            (preorder(s).contains(x) || (x == ch && preorder(s).contains(p))) implies #[trigger]
        preorder(s2).contains(x) by {
            if preorder(s).contains(x) {
                let j = choose|j: int| 0 <= j < preorder(s).len() && preorder(s)[j] == x;
                if j == 0 {
                    assert(preorder(s2)[0] == x);
                } else {
                    assert(pk.contains(x));
                    assert(pk2.contains(x));
                    let jj = choose|jj: int| 0 <= jj < pk2.len() && pk2[jj] == x;
                    assert(preorder(s2)[1 + jj] == x);
                }
            } else {
                assert(preorder(s).contains(p));
                let j = choose|j: int| 0 <= j < preorder(s).len() && preorder(s)[j] == p;
                assert(j != 0);
                assert(pk.contains(p));
                assert(pk2.contains(ch));
                let jj = choose|jj: int| 0 <= jj < pk2.len() && pk2[jj] == ch;
                assert(preorder(s2)[1 + jj] == ch);
            }
        }
    }
}

/// The attach transform over a list of duplicate-free, pairwise-disjoint
/// subtrees: the concatenated preorder stays duplicate-free and gains exactly
/// the leaf's id, exactly when the node is in one of the subtrees.
proof fn lemma_attach_kids_preorder(kids: Seq<Shape>, p: int, ch: int)
    requires
        preorder_kids(kids).no_duplicates(),
        !preorder_kids(kids).contains(ch),
    ensures
        preorder_kids(attach_kids(kids, p, ch)).no_duplicates(),
        forall|x: int|
            #[trigger] preorder_kids(attach_kids(kids, p, ch)).contains(x) <==> (preorder_kids(
                kids,
            ).contains(x) || (x == ch && preorder_kids(kids).contains(p))),
    decreases kids, 0int,
{
    if kids.len() == 0 {
    } else {
        let a = preorder(kids[0]);
        let b = preorder_kids(kids.drop_first());
        assert(preorder_kids(kids) == a + b);
        lemma_nodup_split_ids(a, b);
        assert(!a.contains(ch) && !b.contains(ch)) by {
            if a.contains(ch) {
                let j = choose|j: int| 0 <= j < a.len() && a[j] == ch;
                assert(preorder_kids(kids)[j] == ch);
            }
            if b.contains(ch) {
                let j = choose|j: int| 0 <= j < b.len() && b[j] == ch;
                assert(preorder_kids(kids)[a.len() + j] == ch);
            }
        }
        lemma_attach_preorder(kids[0], p, ch);
        lemma_attach_kids_preorder(kids.drop_first(), p, ch);
        let a2 = preorder(attach_shape(kids[0], p, ch));
        let b2 = preorder_kids(attach_kids(kids.drop_first(), p, ch));
        assert(attach_kids(kids, p, ch) == seq![attach_shape(kids[0], p, ch)] + attach_kids(
            kids.drop_first(),
            p,
            ch,
        ));
        assert(attach_kids(kids, p, ch)[0] == attach_shape(kids[0], p, ch));
        assert(attach_kids(kids, p, ch).drop_first() =~= attach_kids(kids.drop_first(), p, ch));
        assert(preorder_kids(attach_kids(kids, p, ch)) == a2 + b2);
        assert forall|x: int| !(a2.contains(x) && #[trigger] b2.contains(x)) by {
            if a2.contains(x) && b2.contains(x) {
                if a.contains(x) && b.contains(x) {
                    let i = choose|i: int| 0 <= i < a.len() && a[i] == x;
                    let j = choose|j: int| 0 <= j < b.len() && b[j] == x;
                    assert(preorder_kids(kids)[i] == x);
                    assert(preorder_kids(kids)[a.len() + j] == x);
                }
            }
        }
        lemma_nodup_join_ids(a2, b2);
        assert forall|x: int| #[trigger]
            preorder_kids(attach_kids(kids, p, ch)).contains(x) implies (preorder_kids(
            kids,
        ).contains(x) || (x == ch && preorder_kids(kids).contains(p))) by {
            let j = choose|j: int|
                0 <= j < (a2 + b2).len() && (a2 + b2)[j] == x;
            if j < a2.len() {
                assert(a2.contains(x));
                if a.contains(x) {
                    let i = choose|i: int| 0 <= i < a.len() && a[i] == x;
                    assert(preorder_kids(kids)[i] == x);
                } else {
                    let i = choose|i: int| 0 <= i < a.len() && a[i] == p;
                    assert(preorder_kids(kids)[i] == p);
                }
            } else {
                assert(b2.contains(x));
                if b.contains(x) {
                    let i = choose|i: int| 0 <= i < b.len() && b[i] == x;
                    assert(preorder_kids(kids)[a.len() + i] == x);
                } else {
                    let i = choose|i: int| 0 <= i < b.len() && b[i] == p;
                    assert(preorder_kids(kids)[a.len() + i] == p);
                }
            }
        }
        assert forall|x: int|
            (preorder_kids(kids).contains(x) || (x == ch && preorder_kids(kids).contains(p)))
            implies #[trigger] preorder_kids(attach_kids(kids, p, ch)).contains(x) by {
            if preorder_kids(kids).contains(x) {
                let j = choose|j: int|
                    0 <= j < preorder_kids(kids).len() && preorder_kids(kids)[j] == x;
                if j < a.len() {
                    assert(a.contains(x));
                    assert(a2.contains(x));
                    let i = choose|i: int| 0 <= i < a2.len() && a2[i] == x;
                    assert((a2 + b2)[i] == x);
                } else {
                    assert(b[j - a.len()] == x);
                    assert(b.contains(x));
                    assert(b2.contains(x));
                    let i = choose|i: int| 0 <= i < b2.len() && b2[i] == x;
                    assert((a2 + b2)[a2.len() + i] == x);
                }
            } else {
                let j = choose|j: int|
                    0 <= j < preorder_kids(kids).len() && preorder_kids(kids)[j] == p;
                if j < a.len() {
                    assert(a.contains(p));
                    assert(a2.contains(ch));
                    let i = choose|i: int| 0 <= i < a2.len() && a2[i] == ch;
                    assert((a2 + b2)[i] == ch);
                } else {
                    assert(b[j - a.len()] == p);
                    assert(b.contains(p));
                    assert(b2.contains(ch));
                    let i = choose|i: int| 0 <= i < b2.len() && b2[i] == ch;
                    assert((a2 + b2)[a2.len() + i] == ch);
                }
            }
        }
    }
}

/// A duplicate-free concatenation of id lists splits into duplicate-free,
/// disjoint parts.
pub proof fn lemma_nodup_split_ids(a: Seq<int>, b: Seq<int>)
    requires
        (a + b).no_duplicates(),
    ensures
        a.no_duplicates(),
        b.no_duplicates(),
        forall|x: int| !(a.contains(x) && #[trigger] b.contains(x)),
{
    assert forall|i: int, j: int| 0 <= i < a.len() && 0 <= j < a.len() && i != j implies a[i]
        != a[j] by {
        assert((a + b)[i] == a[i] && (a + b)[j] == a[j]);
    }
    assert forall|i: int, j: int| 0 <= i < b.len() && 0 <= j < b.len() && i != j implies b[i]
        != b[j] by {
        assert((a + b)[a.len() + i] == b[i] && (a + b)[a.len() + j] == b[j]);
    }
    assert forall|x: int| !(a.contains(x) && #[trigger] b.contains(x)) by {
        if a.contains(x) && b.contains(x) {
            let i = choose|i: int| 0 <= i < a.len() && a[i] == x;
            let j = choose|j: int| 0 <= j < b.len() && b[j] == x;
            assert((a + b)[i] == x && (a + b)[a.len() + j] == x);
        }
    }
}

/// Duplicate-free, disjoint id lists concatenate without duplicates.
pub proof fn lemma_nodup_join_ids(a: Seq<int>, b: Seq<int>)
    requires
        a.no_duplicates(),
        b.no_duplicates(),
        forall|x: int| !(a.contains(x) && #[trigger] b.contains(x)),
    ensures
        (a + b).no_duplicates(),
{
    assert forall|i: int, j: int|
        0 <= i < (a + b).len() && 0 <= j < (a + b).len() && i != j implies (a + b)[i] != (
    a + b)[j] by {
        if i < a.len() && j < a.len() {
        } else if i >= a.len() && j >= a.len() {
            assert((a + b)[i] == b[i - a.len()] && (a + b)[j] == b[j - a.len()]);
        } else if i < a.len() {
            assert(a.contains(a[i]));
            assert(b.contains((a + b)[j]));
        } else {
            assert(a.contains(a[j]));
            assert(b.contains((a + b)[i]));
        }
    }
}

/// Duplicate-free subtrees with pairwise-disjoint preorders concatenate into
/// a duplicate-free preorder holding exactly their ids.
pub proof fn lemma_pk_disjoint_nodup(kids: Seq<Shape>)
    requires
        forall|k: int| 0 <= k < kids.len() ==> (#[trigger] preorder(kids[k])).no_duplicates(),
        forall|k1: int, k2: int, x: int|
            #![trigger preorder(kids[k1]).contains(x), preorder(kids[k2]).contains(x)]
            0 <= k1 < kids.len() && 0 <= k2 < kids.len() && k1 != k2 ==> !(preorder(
                kids[k1],
            ).contains(x) && preorder(kids[k2]).contains(x)),
    ensures
        preorder_kids(kids).no_duplicates(),
        forall|x: int|
            #[trigger] preorder_kids(kids).contains(x) <==> exists|k: int|
                0 <= k < kids.len() && preorder(#[trigger] kids[k]).contains(x),
    decreases kids,
{
    if kids.len() > 0 {
        let rest = kids.drop_first();
        assert forall|k: int| 0 <= k < rest.len() implies (#[trigger] preorder(
            rest[k],
        )).no_duplicates() by {
            assert(rest[k] == kids[k + 1]);
        }
        assert forall|k1: int, k2: int, x: int|
            #![trigger preorder(rest[k1]).contains(x), preorder(rest[k2]).contains(x)]
            0 <= k1 < rest.len() && 0 <= k2 < rest.len() && k1 != k2 implies !(preorder(
            rest[k1],
        ).contains(x) && preorder(rest[k2]).contains(x)) by {
            assert(rest[k1] == kids[k1 + 1] && rest[k2] == kids[k2 + 1]);
        }
        lemma_pk_disjoint_nodup(rest);
        let a = preorder(kids[0]);
        let b = preorder_kids(rest);
        assert(preorder_kids(kids) == a + b);
        assert forall|x: int| !(a.contains(x) && #[trigger] b.contains(x)) by {
            if a.contains(x) && b.contains(x) {
                let k = choose|k: int| 0 <= k < rest.len() && preorder(rest[k]).contains(x);
                assert(rest[k] == kids[k + 1]);
                assert(preorder(kids[k + 1]).contains(x) && preorder(kids[0]).contains(x));
            }
        }
        lemma_nodup_join_ids(a, b);
        assert forall|x: int| #[trigger] preorder_kids(kids).contains(x) implies exists|k: int|
            0 <= k < kids.len() && preorder(#[trigger] kids[k]).contains(x) by {
            let j = choose|j: int|
                0 <= j < preorder_kids(kids).len() && preorder_kids(kids)[j] == x;
            if j < a.len() {
                assert(preorder(kids[0]).contains(x));
            } else {
                assert(b[j - a.len()] == x);
                assert(b.contains(x));
                let k = choose|k: int| 0 <= k < rest.len() && preorder(rest[k]).contains(x);
                assert(rest[k] == kids[k + 1]);
                assert(preorder(kids[k + 1]).contains(x));
            }
        }
        assert forall|x: int|
            (exists|k: int| 0 <= k < kids.len() && preorder(#[trigger] kids[k]).contains(x))
            implies #[trigger] preorder_kids(kids).contains(x) by {
            let k = choose|k: int| 0 <= k < kids.len() && preorder(kids[k]).contains(x);
            if k == 0 {
                let j = choose|j: int| 0 <= j < a.len() && a[j] == x;
                assert(preorder_kids(kids)[j] == x);
            } else {
                assert(rest[k - 1] == kids[k]);
                assert(preorder(rest[k - 1]).contains(x));
                assert(b.contains(x));
                let j = choose|j: int| 0 <= j < b.len() && b[j] == x;
                assert(preorder_kids(kids)[a.len() + j] == x);
            }
        }
    }
}

/// A list of slot indices as unsigned values.
pub open spec fn usizes(s: Seq<int>) -> Seq<usize> {
    s.map_values(|x: int| x as usize)
}

/// Casting distributes over concatenation.
pub proof fn lemma_usizes_add(a: Seq<int>, b: Seq<int>)
    ensures
        usizes(a + b) == usizes(a) + usizes(b),
{
    assert(usizes(a + b) =~= usizes(a) + usizes(b));
}

} // verus!
