//! Layout engine using an arena for storage.
//!
//! Layout passes need mutable access to one node's rectangle while reading its
//! children's, so nodes live in flat parallel arrays indexed by integer id
//! rather than in an owned recursive tree.

use vstd::prelude::*;

use crate::compute;
use crate::errors::UiError;
use crate::layout::Layout;
use crate::passes::state_ok;
use crate::rect::Rect;
use crate::tree::{
    attach_shape, leaf, lemma_attach_matches, lemma_matches_extend, shape_matches, shape_of, Shape,
};

verus! {

/// A tree of layout nodes in flat parallel arrays.
pub struct Arena {
    /// Layout rules
    pub layouts: Vec<Layout>,
    /// Computed sizes & positions
    pub rects: Vec<Rect>,
    /// Children indices for each node
    pub children: Vec<Vec<usize>>,
    /// The ghost subtree shape rooted at each node
    pub shapes: Ghost<Seq<Shape>>,
}

impl Arena {
    /// The number of node slots.
    pub open spec fn spec_len(self) -> nat {
        self.rects@.len()
    }

    /// Well-formed: the parallel arrays agree, every child index is in
    /// bounds, and every slot roots a matching subtree shape — so the
    /// children lists form trees.
    pub open spec fn wf(self) -> bool {
        &&& state_ok(self.layouts@, self.rects@, self.children@)
        &&& self.shapes@.len() == self.rects@.len()
        &&& forall|i: int|
            0 <= i < self.shapes@.len() ==> shape_matches(
                self.children@,
                i,
                #[trigger] self.shapes@[i],
            )
    }

    /// Create a new empty arena.
    pub fn new() -> (r: Self)
        ensures
            r.wf(),
            r.spec_len() == 0,
    {
        Arena {
            layouts: Vec::new(),
            rects: Vec::new(),
            children: Vec::new(),
            shapes: Ghost(Seq::empty()),
        }
    }

    /// Insert a root node into the arena and return its id.
    pub fn insert(&mut self, layout: Layout) -> (id: usize)
        requires
            old(self).wf(),
        ensures
            final(self).wf(),
            id == old(self).spec_len(),
            final(self).spec_len() == old(self).spec_len() + 1,
            final(self).layouts@ == old(self).layouts@.push(layout),
            final(self).rects@ == old(self).rects@.push(Rect::spec_default()),
            final(self).children@[id as int]@ == Seq::<usize>::empty(),
            forall|x: int|
                0 <= x < old(self).spec_len() ==> (#[trigger] final(self).children@[x])@ == old(
                    self,
                ).children@[x]@,
    {
        let id = self.layouts.len();
        self.layouts.push(layout);
        self.rects.push(Rect::default());
        self.children.push(Vec::new());
        proof {
            self.shapes@ = self.shapes@.push(leaf(id as int));
            assert forall|i: int| 0 <= i < self.shapes@.len() implies shape_matches(
                self.children@,
                i,
                #[trigger] self.shapes@[i],
            ) by {
                if i < id {
                    lemma_matches_extend(
                        old(self).children@,
                        self.children@,
                        i,
                        self.shapes@[i],
                    );
                } else {
                    assert(self.children@[i]@.len() == 0);
                }
            }
        }
        id
    }

    /// Insert a child node under `parent` and return its id; rejected when
    /// `parent` is out of range.
    pub fn insert_child(&mut self, layout: Layout, parent: usize) -> (r: Result<usize, UiError>)
        requires
            old(self).wf(),
        ensures
            final(self).wf(),
            parent >= old(self).spec_len() ==> r == Err::<usize, UiError>(UiError::InvalidNodeId)
                && *final(self) == *old(self),
            parent < old(self).spec_len() ==> {
                &&& r == Ok::<usize, UiError>(old(self).spec_len() as usize)
                &&& final(self).spec_len() == old(self).spec_len() + 1
                &&& final(self).layouts@ == old(self).layouts@.push(layout)
                &&& final(self).rects@ == old(self).rects@.push(Rect::spec_default())
                &&& final(self).children@[parent as int]@ == old(self).children@[
                    parent as int
                ]@.push(old(self).spec_len() as usize)
                &&& final(self).children@[old(self).spec_len() as int]@ == Seq::<usize>::empty()
                &&& forall|x: int|
                    0 <= x < old(self).spec_len() && x != parent
                        ==> (#[trigger] final(self).children@[x])@ == old(self).children@[x]@
            },
    {
        if parent >= self.layouts.len() {
            return Err(UiError::InvalidNodeId);
        }
        let id = self.insert(layout);
        let ghost c1 = self.children@;
        self.children[parent].push(id);
        proof {
            let c2 = self.children@;
            assert(c2[parent as int]@ == c1[parent as int]@.push(id));
            let pre_shapes = self.shapes@;
            self.shapes@ = Seq::new(
                pre_shapes.len(),
                |i: int|
                    if i == id {
                        leaf(id as int)
                    } else {
                        attach_shape(pre_shapes[i], parent as int, id as int)
                    },
            );
            assert forall|i: int| 0 <= i < self.shapes@.len() implies shape_matches(
                self.children@,
                i,
                #[trigger] self.shapes@[i],
            ) by {
                if i == id {
                    assert(c2[id as int]@.len() == 0);
                } else {
                    assert(shape_matches(c1, i, pre_shapes[i]));
                    lemma_attach_matches(c1, c2, i, pre_shapes[i], parent as int, id);
                }
            }
        }
        Ok(id)
    }

    /// Recompute the entire layout starting from the given root node;
    /// rejected when `root` is out of range.
    pub fn compute_layout(&mut self, root: usize) -> (r: Result<(), UiError>)
        requires
            old(self).wf(),
        ensures
            final(self).wf(),
            final(self).layouts@ == old(self).layouts@,
            final(self).children@ == old(self).children@,
            final(self).shapes@ == old(self).shapes@,
            root >= old(self).spec_len() ==> r == Err::<(), UiError>(UiError::InvalidNodeId)
                && final(self).rects@ == old(self).rects@,
            root < old(self).spec_len() ==> r == Ok::<(), UiError>(()) && final(self).rects@
                == compute::spec_solve(
                old(self).layouts@,
                old(self).rects@,
                old(self).children@,
                root as int,
                shape_of(old(self).children@, root as int),
            ),
            root < old(self).spec_len() ==> forall|n: int|
                #[trigger] crate::tree::preorder(
                    shape_of(old(self).children@, root as int),
                ).contains(n) && !(n == root as int && old(self).layouts@[n].size.on(0) is Percent)
                    ==> final(self).rects@[n].size.on(0) >= 0,
            root < old(self).spec_len() ==> forall|n: int|
                #[trigger] crate::tree::preorder(
                    shape_of(old(self).children@, root as int),
                ).contains(n) && !(n == root as int && old(self).layouts@[n].size.on(1) is Percent)
                    ==> final(self).rects@[n].size.on(1) >= 0,
    {
        if root >= self.rects.len() {
            return Err(UiError::InvalidNodeId);
        }
        proof {
            assert(shape_matches(self.children@, root as int, self.shapes@[root as int]));
        }
        compute::compute_layout(root, &self.layouts, &mut self.rects, &self.children);
        Ok(())
    }
}

} // verus!
