//! The scene: layout nodes, their styles, and the interaction state.

use vstd::prelude::*;

use crate::compute;
use crate::errors::UiError;
use crate::layout::Layout;
use crate::passes::state_ok;
use crate::rect::Rect;
use crate::styles::{ComputedStyle, StyleSheet};
use crate::tree::{
    attach_shape, leaf, lemma_attach_matches, lemma_attach_preorder, lemma_matches_extend,
    lemma_nodup_join_ids, lemma_pk_disjoint_nodup, lemma_pre_bounded, preorder, shape_matches,
    shape_of, Shape,
};

verus! {

/// Every stored subtree shape lists each node at most once.
pub open spec fn shapes_tidy(shapes: Seq<Shape>) -> bool {
    forall|i: int| 0 <= i < shapes.len() ==> (#[trigger] preorder(shapes[i])).no_duplicates()
}

/// Detached roots own disjoint subtrees: no node sits under two of them.
pub open spec fn roots_separated(shapes: Seq<Shape>, attached: Seq<bool>) -> bool {
    forall|r1: int, r2: int, x: int|
        #![trigger preorder(shapes[r1]).contains(x), preorder(shapes[r2]).contains(x)]
        0 <= r1 < shapes.len() && 0 <= r2 < shapes.len() && r1 != r2 && !attached[r1]
            && !attached[r2] ==> !(preorder(shapes[r1]).contains(x) && preorder(
            shapes[r2],
        ).contains(x))
}

/// Some slot's child list holds `x`.
pub open spec fn is_attached(children: Seq<Vec<usize>>, x: usize) -> bool {
    exists|p: int, k: int|
        0 <= p < children.len() && 0 <= k < children[p]@.len() && children[p]@[k] == x
}

/// No node sits in two child lists, nor twice in one: the children lists form
/// a forest.
pub open spec fn single_parents(children: Seq<Vec<usize>>) -> bool {
    forall|p1: int, k1: int, p2: int, k2: int|
        0 <= p1 < children.len() && 0 <= k1 < children[p1]@.len() && 0 <= p2 < children.len() && 0
            <= k2 < children[p2]@.len() && #[trigger] children[p1]@[k1] == #[trigger] children[p2]@[k2]
            ==> p1 == p2 && k1 == k2
}

/// The scene tree: layout rules, computed geometry, style rules and computed
/// styles per node, and the pointer interaction state.
pub struct DOM {
    /// Root node index
    pub root: usize,
    /// Layout rules
    pub layouts: Vec<Layout>,
    /// Computed sizes & positions
    pub rects: Vec<Rect>,
    /// Children indices for each node
    pub children: Vec<Vec<usize>>,
    /// Computed styles from style rules (ready to be handed to a renderer)
    pub styles: Vec<ComputedStyle>,
    /// Style rules for each node
    pub stylesheets: Vec<StyleSheet>,
    /// Mouse position
    pub mouse: [i32; 2],
    /// Hover state
    pub hovered: Option<usize>,
    /// Clicked state
    pub clicked: Option<usize>,
    /// Dirty nodes that must be redrawn with their children
    pub dirty: Vec<usize>,
    /// Nodes that need to be redrawn, parents first (computed from dirty)
    pub redraw: Vec<usize>,
    /// Whether each node currently sits in some child list
    pub attached: Vec<bool>,
    /// The ghost subtree shape rooted at each node
    pub shapes: Ghost<Seq<Shape>>,
}

impl DOM {
    /// The number of nodes.
    pub open spec fn spec_len(self) -> nat {
        self.rects@.len()
    }

    /// Well-formed: parallel arrays agree; every slot roots a matching
    /// subtree shape; each node has at most one parent; every style sheet is
    /// well-formed with only known property ids; and the interaction state
    /// points at existing nodes.
    pub open spec fn wf(self) -> bool {
        &&& state_ok(self.layouts@, self.rects@, self.children@)
        &&& self.styles@.len() == self.spec_len()
        &&& self.stylesheets@.len() == self.spec_len()
        &&& self.attached@.len() == self.spec_len()
        &&& self.shapes@.len() == self.spec_len()
        &&& forall|i: int|
            0 <= i < self.spec_len() ==> shape_matches(self.children@, i, #[trigger] self.shapes@[i])
        &&& forall|i: int|
            0 <= i < self.spec_len() ==> (#[trigger] self.stylesheets@[i]).wf()
                && self.stylesheets@[i].known()
        &&& single_parents(self.children@)
        &&& forall|x: usize|
            x < self.spec_len() ==> self.attached@[x as int] == is_attached(self.children@, x)
        &&& shapes_tidy(self.shapes@)
        &&& roots_separated(self.shapes@, self.attached@)
        &&& match self.hovered {
            Some(h) => h < self.spec_len(),
            None => true,
        }
        &&& match self.clicked {
            Some(c) => c < self.spec_len(),
            None => true,
        }
        &&& self.root == 0
    }

    /// Create a new empty scene.
    pub fn new() -> (r: Self)
        ensures
            r.wf(),
            r.spec_len() == 0,
            r.root == 0,
            r.mouse[0] == -1 && r.mouse[1] == -1,
            r.hovered is None,
            r.clicked is None,
            r.dirty@.len() == 0,
            r.redraw@.len() == 0,
    {
        DOM {
            root: 0,
            layouts: Vec::new(),
            rects: Vec::new(),
            children: Vec::new(),
            styles: Vec::new(),
            stylesheets: Vec::new(),
            mouse: [-1, -1],
            hovered: None,
            clicked: None,
            dirty: Vec::new(),
            redraw: Vec::new(),
            attached: Vec::new(),
            shapes: Ghost(Seq::empty()),
        }
    }

    /// Recompute the entire layout starting from the given root node;
    /// rejected when `root` is out of range.
    pub fn compute_layout(&mut self, root: usize) -> (r: Result<(), UiError>)
        requires
            old(self).wf(),
        ensures
            final(self).wf(),
            *final(self) == (DOM { rects: final(self).rects, ..*old(self) }),
            root >= old(self).spec_len() ==> r == Err::<(), UiError>(UiError::InvalidNodeId)
                && final(self).rects@ == old(self).rects@,
            root < old(self).spec_len() ==> r == Ok::<(), UiError>(()) && final(self).rects@
                == compute::spec_solve(
                old(self).layouts@,
                old(self).rects@,
                old(self).children@,
                root as int,
                shape_of(old(self).children@, root as int),
            ),
            root < old(self).spec_len() ==> forall|n: int|
                #[trigger] crate::tree::preorder(
                    shape_of(old(self).children@, root as int),
                ).contains(n) && !(n == root as int && old(self).layouts@[n].size.on(0) is Percent)
                    ==> final(self).rects@[n].size.on(0) >= 0,
            root < old(self).spec_len() ==> forall|n: int|
                #[trigger] crate::tree::preorder(
                    shape_of(old(self).children@, root as int),
                ).contains(n) && !(n == root as int && old(self).layouts@[n].size.on(1) is Percent)
                    ==> final(self).rects@[n].size.on(1) >= 0,
    {
        if root >= self.rects.len() {
            return Err(UiError::InvalidNodeId);
        }
        proof {
            assert(shape_matches(self.children@, root as int, self.shapes@[root as int]));
        }
        compute::compute_layout(root, &self.layouts, &mut self.rects, &self.children);
        Ok(())
    }

    /// Insert a root node and return its id; rejected when the style sheet
    /// holds an unknown property id. The node's computed style starts as the
    /// sheet's default map over the base style.
    pub fn insert(&mut self, layout: Layout, stylesheet: StyleSheet) -> (r: Result<usize, UiError>)
        requires
            old(self).wf(),
            stylesheet.wf(),
        ensures
            final(self).wf(),
            !stylesheet.known() ==> r == Err::<usize, UiError>(UiError::UnknownStyleProperty)
                && *final(self) == *old(self),
            stylesheet.known() ==> {
                &&& r == Ok::<usize, UiError>(old(self).spec_len() as usize)
                &&& final(self).spec_len() == old(self).spec_len() + 1
                &&& final(self).layouts@ == old(self).layouts@.push(layout)
                &&& final(self).rects@ == old(self).rects@.push(Rect::spec_default())
                &&& final(self).styles@ == old(self).styles@.push(
                    crate::styles::spec_overlay(stylesheet.default@, ComputedStyle::spec_default()),
                )
                &&& final(self).stylesheets@ == old(self).stylesheets@.push(stylesheet)
                &&& final(self).attached@ == old(self).attached@.push(false)
                &&& final(self).children@[old(self).spec_len() as int]@ == Seq::<usize>::empty()
                &&& forall|x: int|
                    0 <= x < old(self).spec_len()
                        ==> (#[trigger] final(self).children@[x])@ == old(self).children@[x]@
                &&& final(self).shapes@ == old(self).shapes@.push(
                    leaf(old(self).spec_len() as int),
                )
                &&& final(self).root == old(self).root
                &&& final(self).mouse == old(self).mouse
                &&& final(self).hovered == old(self).hovered
                &&& final(self).clicked == old(self).clicked
                &&& final(self).dirty@ == old(self).dirty@
                &&& final(self).redraw@ == old(self).redraw@
            },
    {
        if !stylesheet.check_known() {
            return Err(UiError::UnknownStyleProperty);
        }
        let id = self.layouts.len();
        let mut style = ComputedStyle::default();
        let applied = stylesheet.apply_default(&mut style);
        proof {
            assert(applied is Ok);
        }
        self.layouts.push(layout);
        self.rects.push(Rect::default());
        self.children.push(Vec::new());
        self.stylesheets.push(stylesheet);
        self.styles.push(style);
        self.attached.push(false);
        proof {
            assert(state_ok(self.layouts@, self.rects@, self.children@)) by {
                assert forall|i: int, k: int|
                    0 <= i < self.children@.len() && 0 <= k < self.children@[i]@.len() implies (
                #[trigger] self.children@[i]@[k]) < self.children@.len() by {
                    if i < id {
                        assert(self.children@[i]@ == old(self).children@[i]@);
                    }
                }
            }
            self.shapes@ = self.shapes@.push(leaf(id as int));
            assert forall|i: int| 0 <= i < self.shapes@.len() implies shape_matches(
                self.children@,
                i,
                #[trigger] self.shapes@[i],
            ) by {
                if i < id {
                    lemma_matches_extend(old(self).children@, self.children@, i, self.shapes@[i]);
                } else {
                    assert(self.children@[i]@.len() == 0);
                }
            }
            assert forall|x: usize| x < self.spec_len() implies self.attached@[x as int]
                == is_attached(self.children@, x) by {
                assert(is_attached(self.children@, x) == is_attached(old(self).children@, x)) by {
                    if is_attached(self.children@, x) {
                        let (p, k) = choose|p: int, k: int|
                            0 <= p < self.children@.len() && 0 <= k < self.children@[p]@.len()
                                && self.children@[p]@[k] == x;
                        assert(p < id && self.children@[p]@ == old(self).children@[p]@);
                    }
                    if is_attached(old(self).children@, x) {
                        let (p, k) = choose|p: int, k: int|
                            0 <= p < old(self).children@.len() && 0 <= k < old(
                                self,
                            ).children@[p]@.len() && old(self).children@[p]@[k] == x;
                        assert(self.children@[p]@ == old(self).children@[p]@);
                    }
                }
                if x < id {
                } else {
                    assert(!is_attached(old(self).children@, x));
                }
            }
            assert(single_parents(self.children@)) by {
                assert forall|p1: int, k1: int, p2: int, k2: int|
                    0 <= p1 < self.children@.len() && 0 <= k1 < self.children@[p1]@.len() && 0 <= p2
                        < self.children@.len() && 0 <= k2 < self.children@[p2]@.len()
                        && #[trigger] self.children@[p1]@[k1] == #[trigger] self.children@[p2]@[k2] implies p1
                    == p2 && k1 == k2 by {
                    assert(self.children@[id as int]@.len() == 0);
                    assert(p1 != id && p2 != id);
                    assert(self.children@[p1]@ == old(self).children@[p1]@);
                    assert(self.children@[p2]@ == old(self).children@[p2]@);
                }
            }
            assert(preorder(leaf(id as int)) =~= seq![id as int]);
            assert(shapes_tidy(self.shapes@)) by {
                assert forall|i: int| 0 <= i < self.shapes@.len() implies (#[trigger] preorder(
                    self.shapes@[i],
                )).no_duplicates() by {
                    if i < id {
                        assert(self.shapes@[i] == old(self).shapes@[i]);
                    }
                }
            }
            assert(roots_separated(self.shapes@, self.attached@)) by {
                assert forall|r1: int, r2: int, x: int|
                    #![trigger preorder(self.shapes@[r1]).contains(x), preorder(self.shapes@[r2]).contains(x)]
                    0 <= r1 < self.shapes@.len() && 0 <= r2 < self.shapes@.len() && r1 != r2
                        && !self.attached@[r1] && !self.attached@[r2] && preorder(
                        self.shapes@[r1],
                    ).contains(x) implies !preorder(self.shapes@[r2]).contains(x) by {
                    if r1 == id || r2 == id {
                        let other = if r1 == id { r2 } else { r1 };
                        lemma_pre_bounded(
                            old(self).children@,
                            other,
                            old(self).shapes@[other],
                        );
                        assert(self.shapes@[other] == old(self).shapes@[other]);
                        if preorder(self.shapes@[id as int]).contains(x) {
                            assert(x == id);
                        }
                    } else {
                        assert(self.shapes@[r1] == old(self).shapes@[r1]);
                        assert(self.shapes@[r2] == old(self).shapes@[r2]);
                        assert(self.attached@[r1] == old(self).attached@[r1]);
                        assert(self.attached@[r2] == old(self).attached@[r2]);
                    }
                }
            }
        }
        Ok(id)
    }

    /// Insert a child node under `parent` and return its id; rejected when
    /// the style sheet holds an unknown property id or `parent` is out of
    /// range.
    pub fn insert_child(&mut self, layout: Layout, style: StyleSheet, parent: usize) -> (r: Result<
        usize,
        UiError,
    >)
        requires
            old(self).wf(),
            style.wf(),
        ensures
            final(self).wf(),
            !style.known() ==> r == Err::<usize, UiError>(UiError::UnknownStyleProperty)
                && *final(self) == *old(self),
            style.known() && parent >= old(self).spec_len() ==> r == Err::<usize, UiError>(
                UiError::InvalidNodeId,
            ) && *final(self) == *old(self),
            style.known() && parent < old(self).spec_len() ==> {
                &&& r == Ok::<usize, UiError>(old(self).spec_len() as usize)
                &&& final(self).spec_len() == old(self).spec_len() + 1
                &&& final(self).layouts@ == old(self).layouts@.push(layout)
                &&& final(self).rects@ == old(self).rects@.push(Rect::spec_default())
                &&& final(self).styles@ == old(self).styles@.push(
                    crate::styles::spec_overlay(style.default@, ComputedStyle::spec_default()),
                )
                &&& final(self).stylesheets@ == old(self).stylesheets@.push(style)
                &&& final(self).children@[parent as int]@ == old(self).children@[
                    parent as int
                ]@.push(old(self).spec_len() as usize)
                &&& final(self).children@[old(self).spec_len() as int]@ == Seq::<usize>::empty()
                &&& forall|x: int|
                    0 <= x < old(self).spec_len() && x != parent
                        ==> (#[trigger] final(self).children@[x])@ == old(self).children@[x]@
                &&& final(self).root == old(self).root
                &&& final(self).mouse == old(self).mouse
                &&& final(self).hovered == old(self).hovered
                &&& final(self).clicked == old(self).clicked
                &&& final(self).dirty@ == old(self).dirty@
                &&& final(self).redraw@ == old(self).redraw@
            },
    {
        if !style.check_known() {
            return Err(UiError::UnknownStyleProperty);
        }
        if parent >= self.layouts.len() {
            return Err(UiError::InvalidNodeId);
        }
        let id = match self.insert(layout, style) {
            Ok(id) => id,
            Err(e) => {
                return Err(e);
            },
        };
        let ghost c1 = self.children@;
        let ghost att1 = self.attached@;
        self.children[parent].push(id);
        self.attached[id] = true;
        proof {
            let c2 = self.children@;
            assert(c2[parent as int]@ == c1[parent as int]@.push(id));
            let pre_shapes = self.shapes@;
            self.shapes@ = Seq::new(
                pre_shapes.len(),
                |i: int|
                    if i == id {
                        leaf(id as int)
                    } else {
                        attach_shape(pre_shapes[i], parent as int, id as int)
                    },
            );
            assert forall|i: int| 0 <= i < self.shapes@.len() implies shape_matches(
                self.children@,
                i,
                #[trigger] self.shapes@[i],
            ) by {
                if i == id {
                    assert(c2[id as int]@.len() == 0);
                } else {
                    assert(shape_matches(c1, i, pre_shapes[i]));
                    lemma_attach_matches(c1, c2, i, pre_shapes[i], parent as int, id);
                }
            }
            let n2 = self.spec_len();
            assert forall|x: usize| x < n2 implies self.attached@[x as int] == is_attached(
                self.children@,
                x,
            ) by {
                if x == id {
                    assert(c2[parent as int]@[c1[parent as int]@.len() as int] == id);
                    assert(is_attached(c2, id));
                } else {
                    assert(self.attached@[x as int] == att1[x as int]);
                    if is_attached(c2, x) {
                        let (p, k) = choose|p: int, k: int|
                            0 <= p < c2.len() && 0 <= k < c2[p]@.len() && c2[p]@[k] == x;
                        if p == parent && k == c1[parent as int]@.len() {
                            assert(x == id);
                        } else {
                            assert(c1[p]@[k] == x);
                            assert(is_attached(c1, x));
                        }
                    }
                    if is_attached(c1, x) {
                        let (p, k) = choose|p: int, k: int|
                            0 <= p < c1.len() && 0 <= k < c1[p]@.len() && c1[p]@[k] == x;
                        assert(c2[p]@[k] == x);
                        assert(is_attached(c2, x));
                    }
                }
            }
            assert(single_parents(c2)) by {
                assert forall|p1: int, k1: int, p2: int, k2: int|
                    0 <= p1 < c2.len() && 0 <= k1 < c2[p1]@.len() && 0 <= p2 < c2.len() && 0 <= k2
                        < c2[p2]@.len() && #[trigger] c2[p1]@[k1] == #[trigger] c2[p2]@[k2] implies p1
                    == p2 && k1 == k2 by {
                    let last = c1[parent as int]@.len() as int;
                    let new1 = p1 == parent && k1 == last;
                    let new2 = p2 == parent && k2 == last;
                    if new1 && new2 {
                    } else if new1 {
                        assert(c1[p2]@[k2] == id);
                        assert(is_attached(c1, id));
                        assert(false);
                    } else if new2 {
                        assert(c1[p1]@[k1] == id);
                        assert(is_attached(c1, id));
                        assert(false);
                    } else {
                        assert(c1[p1]@[k1] == c1[p2]@[k2]);
                    }
                }
            }
            // the fresh leaf appears in no stored shape yet
            assert forall|i: int| 0 <= i < id implies !(#[trigger] preorder(
                pre_shapes[i],
            )).contains(id as int) by {
                assert(pre_shapes[i] == old(self).shapes@[i]);
                lemma_pre_bounded(old(self).children@, i, old(self).shapes@[i]);
            }
            assert(preorder(leaf(id as int)) =~= seq![id as int]);
            assert(shapes_tidy(self.shapes@)) by {
                assert forall|i: int| 0 <= i < self.shapes@.len() implies (#[trigger] preorder(
                    self.shapes@[i],
                )).no_duplicates() by {
                    if i != id {
                        lemma_attach_preorder(pre_shapes[i], parent as int, id as int);
                    }
                }
            }
            assert(roots_separated(self.shapes@, self.attached@)) by {
                assert forall|r1: int, r2: int, x: int|
                    #![trigger preorder(self.shapes@[r1]).contains(x), preorder(self.shapes@[r2]).contains(x)]
                    0 <= r1 < self.shapes@.len() && 0 <= r2 < self.shapes@.len() && r1 != r2
                        && !self.attached@[r1] && !self.attached@[r2] && preorder(
                        self.shapes@[r1],
                    ).contains(x) implies !preorder(self.shapes@[r2]).contains(x) by {
                    assert(r1 != id && r2 != id);
                    lemma_attach_preorder(pre_shapes[r1], parent as int, id as int);
                    lemma_attach_preorder(pre_shapes[r2], parent as int, id as int);
                    if preorder(self.shapes@[r2]).contains(x) {
                        if preorder(pre_shapes[r1]).contains(x) && preorder(
                            pre_shapes[r2],
                        ).contains(x) {
                        } else {
                            assert(x == id);
                            assert(preorder(pre_shapes[r1]).contains(parent as int) || preorder(
                                pre_shapes[r2],
                            ).contains(parent as int));
                            if preorder(pre_shapes[r1]).contains(parent as int) && preorder(
                                pre_shapes[r2],
                            ).contains(parent as int) {
                            } else {
                                assert(preorder(pre_shapes[r1]).contains(id as int) || preorder(
                                    pre_shapes[r2],
                                ).contains(id as int));
                            }
                        }
                    }
                }
            }
        }
        Ok(id)
    }
    /// Handle mouse position movement: hit-test the new position and move the
    /// hover styling from the old target to the new one. While a node is
    /// clicked, pointer moves never touch the hover state or styles.
    pub fn handle_mouse_moved(&mut self, mouse: [i32; 2])
        requires
            old(self).wf(),
            old(self).spec_len() > 0,
        ensures
            final(self).wf(),
            final(self).mouse == mouse,
            final(self).root == old(self).root,
            final(self).layouts@ == old(self).layouts@,
            final(self).rects@ == old(self).rects@,
            final(self).children@ == old(self).children@,
            final(self).stylesheets@ == old(self).stylesheets@,
            final(self).attached@ == old(self).attached@,
            final(self).shapes@ == old(self).shapes@,
            final(self).redraw@ == old(self).redraw@,
            old(self).clicked is Some ==> final(self).hovered == old(self).hovered && final(self).clicked == old(self).clicked && final(self).styles@ == old(self).styles@ && final(self).dirty@ == old(self).dirty@,
            old(self).clicked is None ==> ({
                let target = opt_id(hit_at(*old(self), mouse[0] as int, mouse[1] as int));
                if target == old(self).hovered {
                    final(self).hovered == old(self).hovered && final(self).clicked == old(
                        self,
                    ).clicked && final(self).styles@ == old(self).styles@ && final(self).dirty@
                        == old(self).dirty@
                } else {
                    final(self).hovered == target && final(self).clicked is None && final(self).styles@ == styles_apply_hover(
                        styles_reset_hover(old(self).styles@, old(self).stylesheets@, old(self).hovered),
                        old(self).stylesheets@,
                        target,
                    ) && final(self).dirty@ == dirty_apply_hover(
                        dirty_reset_hover(old(self).dirty@, old(self).stylesheets@, old(self).hovered),
                        old(self).stylesheets@,
                        target,
                    )
                }
            }),
    {
        self.mouse = mouse;

        // 1. If something is clicked, ignore hovers
        if self.clicked.is_some() {
            return;
        }

        // 2. Else, get the index of the newly hovered node
        proof {
            assert(shape_matches(self.children@, self.root as int, self.shapes@[self.root as int]));
        }
        let index = crate::mouse::recurse_mouse(self.root, &self.rects, &self.children, &self.mouse);
        proof {
            let s = shape_of(self.children@, self.root as int);
            assert(shape_matches(self.children@, self.root as int, self.shapes@[self.root as int]));
            assert(shape_matches(self.children@, self.root as int, s));
            crate::mouse::lemma_hit_in_range(
                self.rects@,
                self.children@,
                s,
                mouse[0] as int,
                mouse[1] as int,
            );
        }

        let same = match (index, self.hovered) {
            (Some(a), Some(b)) => a == b,
            (None, None) => true,
            _ => false,
        };
        if same {
            return;
        }

        // 3. If different, redraw the old target and draw the new one
        if let Some(h) = self.hovered {
            if !self.stylesheets[h].hovered.is_empty() {
                let r = self.stylesheets[h].reset_hover(&mut self.styles[h]);
                proof {
                    assert(r is Ok);
                }
                self.dirty.push(h);
            }
        }

        if let Some(n) = index {
            if !self.stylesheets[n].hovered.is_empty() {
                let r = self.stylesheets[n].apply_hovered(&mut self.styles[n]);
                proof {
                    assert(r is Ok);
                }
                self.dirty.push(n);
            }
        }
        self.hovered = index;
    }

    /// Handle mouse clicks: on press, clear the hover styling and apply the
    /// clicked styling to the hit node; on release, reset the clicked styling
    /// and re-apply hover to whatever the pointer now rests on. Redundant
    /// events (a press while pressed, a release while released) are ignored.
    pub fn handle_mouse_clicked(&mut self, clicked: bool)
        requires
            old(self).wf(),
            old(self).spec_len() > 0,
        ensures
            final(self).wf(),
            final(self).mouse == old(self).mouse,
            final(self).root == old(self).root,
            final(self).layouts@ == old(self).layouts@,
            final(self).rects@ == old(self).rects@,
            final(self).children@ == old(self).children@,
            final(self).stylesheets@ == old(self).stylesheets@,
            final(self).attached@ == old(self).attached@,
            final(self).shapes@ == old(self).shapes@,
            final(self).redraw@ == old(self).redraw@,
            (old(self).clicked is Some) == clicked ==> final(self).hovered == old(self).hovered
                && final(self).clicked == old(self).clicked && final(self).styles@ == old(
                self,
            ).styles@ && final(self).dirty@ == old(self).dirty@,
            clicked && old(self).clicked is None ==> ({
                let target = opt_id(
                    hit_at(*old(self), old(self).mouse[0] as int, old(self).mouse[1] as int),
                );
                let s1 = styles_unhover(old(self).styles@, old(self).stylesheets@, old(self).hovered);
                let d1 = dirty_mark(old(self).dirty@, old(self).hovered);
                &&& final(self).hovered is None
                &&& final(self).clicked == target
                &&& final(self).styles@ == styles_click(s1, old(self).stylesheets@, target)
                &&& final(self).dirty@ == dirty_mark(d1, target)
            }),
            !clicked && old(self).clicked is Some ==> ({
                let target = opt_id(
                    hit_at(*old(self), old(self).mouse[0] as int, old(self).mouse[1] as int),
                );
                let s1 = styles_unclick(old(self).styles@, old(self).stylesheets@, old(self).clicked);
                let d1 = dirty_mark(old(self).dirty@, old(self).clicked);
                &&& final(self).clicked is None
                &&& final(self).hovered == (if target is Some {
                    target
                } else {
                    old(self).hovered
                })
                &&& final(self).styles@ == styles_hover(s1, old(self).stylesheets@, target)
                &&& final(self).dirty@ == dirty_mark(d1, target)
            }),
    {
        // Ignore if the state didn't change
        if (self.clicked.is_some() && clicked) || (self.clicked.is_none() && !clicked) {
            return;
        }

        // Get index of currently hovered position
        proof {
            assert(shape_matches(self.children@, self.root as int, self.shapes@[self.root as int]));
        }
        let index = crate::mouse::recurse_mouse(self.root, &self.rects, &self.children, &self.mouse);
        proof {
            let s = shape_of(self.children@, self.root as int);
            assert(shape_matches(self.children@, self.root as int, self.shapes@[self.root as int]));
            assert(shape_matches(self.children@, self.root as int, s));
            crate::mouse::lemma_hit_in_range(
                self.rects@,
                self.children@,
                s,
                self.mouse[0] as int,
                self.mouse[1] as int,
            );
        }

        if clicked {
            // Reset hover state
            if let Some(hovered) = self.hovered {
                let r = self.stylesheets[hovered].reset_hover(&mut self.styles[hovered]);
                proof {
                    assert(r is Ok);
                }
                self.dirty.push(hovered);
                self.hovered = None;
            }

            self.clicked = index;

            // Apply clicked state
            if let Some(n) = index {
                let r = self.stylesheets[n].apply_clicked(&mut self.styles[n]);
                proof {
                    assert(r is Ok);
                }
                self.dirty.push(n);
            }
        } else {
            // Reset clicked state
            if let Some(c) = self.clicked {
                let r = self.stylesheets[c].reset_clicked(&mut self.styles[c]);
                proof {
                    assert(r is Ok);
                }
                self.dirty.push(c);
            }

            self.clicked = None;

            // Re-apply hover state if applicable
            if let Some(n) = index {
                let r = self.stylesheets[n].apply_hovered(&mut self.styles[n]);
                proof {
                    assert(r is Ok);
                }
                self.dirty.push(n);
                self.hovered = Some(n);
            }
        }
    }

    /// Reset clicked and hover states: clear both stylings, mark the nodes
    /// dirty, and move the pointer to the outside sentinel.
    pub fn reset_mouse(&mut self)
        requires
            old(self).wf(),
        ensures
            final(self).wf(),
            final(self).mouse[0] == -1 && final(self).mouse[1] == -1,
            final(self).hovered is None,
            final(self).clicked is None,
            final(self).root == old(self).root,
            final(self).layouts@ == old(self).layouts@,
            final(self).rects@ == old(self).rects@,
            final(self).children@ == old(self).children@,
            final(self).stylesheets@ == old(self).stylesheets@,
            final(self).attached@ == old(self).attached@,
            final(self).shapes@ == old(self).shapes@,
            final(self).redraw@ == old(self).redraw@,
            final(self).styles@ == styles_unhover(
                styles_unclick(old(self).styles@, old(self).stylesheets@, old(self).clicked),
                old(self).stylesheets@,
                old(self).hovered,
            ),
            final(self).dirty@ == dirty_mark(
                dirty_mark(old(self).dirty@, old(self).clicked),
                old(self).hovered,
            ),
    {
        if let Some(c) = self.clicked {
            let r = self.stylesheets[c].reset_clicked(&mut self.styles[c]);
            proof {
                assert(r is Ok);
            }
            self.dirty.push(c);
            self.clicked = None;
        }
        if let Some(h) = self.hovered {
            let r = self.stylesheets[h].reset_hover(&mut self.styles[h]);
            proof {
                assert(r is Ok);
            }
            self.dirty.push(h);
            self.hovered = None;
        }
        self.mouse = [-1, -1];
    }
}

impl DOM {
    /// Insert a node with already-built children and return its id.
    ///
    /// Rejected when the style sheet holds an unknown property id, or when
    /// the children are not distinct detached roots: a child under two
    /// parents would corrupt the tree, so the insertion API refuses to build
    /// one.
    pub fn insert_with_children(
        &mut self,
        layout: Layout,
        style: StyleSheet,
        children: Vec<usize>,
    ) -> (r: Result<usize, UiError>)
        requires
            old(self).wf(),
            style.wf(),
        ensures
            final(self).wf(),
            !style.known() ==> r == Err::<usize, UiError>(UiError::UnknownStyleProperty)
                && *final(self) == *old(self),
            style.known() && !roots_ok(*old(self), children@) ==> r == Err::<usize, UiError>(
                UiError::InvalidNodeId,
            ) && *final(self) == *old(self),
            style.known() && roots_ok(*old(self), children@) ==> {
                &&& r == Ok::<usize, UiError>(old(self).spec_len() as usize)
                &&& final(self).spec_len() == old(self).spec_len() + 1
                &&& final(self).layouts@ == old(self).layouts@.push(layout)
                &&& final(self).rects@ == old(self).rects@.push(Rect::spec_default())
                &&& final(self).styles@ == old(self).styles@.push(
                    crate::styles::spec_overlay(style.default@, ComputedStyle::spec_default()),
                )
                &&& final(self).stylesheets@ == old(self).stylesheets@.push(style)
                &&& final(self).children@[old(self).spec_len() as int]@ == children@
                &&& forall|x: int|
                    0 <= x < old(self).spec_len()
                        ==> (#[trigger] final(self).children@[x])@ == old(self).children@[x]@
                &&& final(self).root == old(self).root
                &&& final(self).mouse == old(self).mouse
                &&& final(self).hovered == old(self).hovered
                &&& final(self).clicked == old(self).clicked
                &&& final(self).dirty@ == old(self).dirty@
                &&& final(self).redraw@ == old(self).redraw@
            },
    {
        if !style.check_known() {
            return Err(UiError::UnknownStyleProperty);
        }

        // Validate: every child exists, sits under no parent yet, and occurs
        // only once
        let n = children.len();
        let mut j: usize = 0;
        while j < n
            invariant
                old(self).wf(),
                self == old(self),
                style.known(),
                j <= n,
                n == children@.len(),
                forall|a: int|
                    0 <= a < j ==> (#[trigger] children@[a]) < old(self).spec_len() && !old(
                        self,
                    ).attached@[children@[a] as int],
                forall|a: int, b: int|
                    0 <= a < b < j ==> (#[trigger] children@[a]) != (#[trigger] children@[b]),
            decreases n - j,
        {
            let c = children[j];
            if c >= self.rects.len() {
                proof {
                    assert(children@[j as int] == c);
                    assert(!roots_ok(*old(self), children@));
                }
                return Err(UiError::InvalidNodeId);
            }
            if self.attached[c] {
                proof {
                    assert(children@[j as int] == c);
                    assert(!roots_ok(*old(self), children@));
                }
                return Err(UiError::InvalidNodeId);
            }
            let mut j2: usize = 0;
            while j2 < j
                invariant
                    old(self).wf(),
                    self == old(self),
                    style.known(),
                    j2 <= j < n,
                    n == children@.len(),
                    c == children@[j as int],
                    forall|a: int| 0 <= a < j2 ==> (#[trigger] children@[a]) != c,
                decreases j - j2,
            {
                if children[j2] == c {
                    proof {
                        assert(children@[j2 as int] == children@[j as int]);
                        assert(!roots_ok(*old(self), children@));
                    }
                    return Err(UiError::InvalidNodeId);
                }
                j2 = j2 + 1;
            }
            j = j + 1;
        }
        proof {
            assert(roots_ok(*old(self), children@));
        }

        // Commit: push the node, adopt the children
        let id = self.layouts.len();
        let mut style_value = ComputedStyle::default();
        let applied = style.apply_default(&mut style_value);
        proof {
            assert(applied is Ok);
        }
        let ghost list = children@;
        let ghost list_vec = children;
        self.layouts.push(layout);
        self.rects.push(Rect::default());
        self.stylesheets.push(style);
        self.styles.push(style_value);
        self.attached.push(false);
        let mut k: usize = 0;
        let ghost att1 = self.attached@;
        while k < n
            invariant
                k <= n,
                n == list.len(),
                children@ == list,
                list_vec@ == list,
                self.root == old(self).root,
                self.layouts@ == old(self).layouts@.push(layout),
                self.rects@ == old(self).rects@.push(Rect::spec_default()),
                self.children@ == old(self).children@,
                self.styles@ == old(self).styles@.push(style_value),
                self.stylesheets@ == old(self).stylesheets@.push(style),
                self.shapes@ == old(self).shapes@,
                self.mouse == old(self).mouse,
                self.hovered == old(self).hovered,
                self.clicked == old(self).clicked,
                self.dirty@ == old(self).dirty@,
                self.redraw@ == old(self).redraw@,
                id == old(self).layouts@.len(),
                att1 == old(self).attached@.push(false),
                self.attached@.len() == att1.len(),
                id < att1.len(),
                forall|a: int| 0 <= a < n ==> (#[trigger] list[a]) < att1.len() - 1,
                forall|a: int|
                    0 <= a < self.attached@.len() ==> (#[trigger] self.attached@[a]) == (att1[a]
                        || exists|b: int| 0 <= b < k && list[b] == a),
            decreases n - k,
        {
            let c = children[k];
            self.attached[c] = true;
            k = k + 1;
        }
        self.children.push(children);

        proof {
            let c0 = old(self).children@;
            let c2 = self.children@;
            assert(id == c0.len());
            assert(c2 == c0.push(list_vec));
            assert(state_ok(self.layouts@, self.rects@, self.children@)) by {
                assert forall|i: int, kk: int|
                    0 <= i < c2.len() && 0 <= kk < c2[i]@.len() implies (#[trigger] c2[i]@[kk])
                    < c2.len() by {
                    if i < id {
                        assert(c2[i]@ == c0[i]@);
                    } else {
                        assert(c2[i]@ == list);
                    }
                }
            }
            let pre_shapes = self.shapes@;
            self.shapes@ = pre_shapes.push(
                Shape::Node {
                    id: id as int,
                    kids: Seq::new(list.len() as nat, |kk: int| pre_shapes[list[kk] as int]),
                },
            );
            assert forall|i: int| 0 <= i < self.shapes@.len() implies shape_matches(
                self.children@,
                i,
                #[trigger] self.shapes@[i],
            ) by {
                if i < id {
                    lemma_matches_extend(c0, c2, i, self.shapes@[i]);
                } else {
                    let s = self.shapes@[id as int];
                    assert(c2[id as int]@ == list);
                    assert forall|kk: int| 0 <= kk < s.kids().len() implies shape_matches(
                        c2,
                        #[trigger] c2[id as int]@[kk] as int,
                        s.kids()[kk],
                    ) by {
                        assert(shape_matches(c0, list[kk] as int, pre_shapes[list[kk] as int]));
                        lemma_matches_extend(c0, c2, list[kk] as int, pre_shapes[list[kk] as int]);
                    }
                }
            }
            assert forall|x: usize| x < self.spec_len() implies self.attached@[x as int]
                == is_attached(self.children@, x) by {
                if is_attached(c2, x) {
                    let (p, kk) = choose|p: int, kk: int|
                        0 <= p < c2.len() && 0 <= kk < c2[p]@.len() && c2[p]@[kk] == x;
                    if p == id {
                        assert(list[kk] == x);
                    } else {
                        assert(c0[p]@[kk] == x);
                        assert(is_attached(c0, x));
                    }
                }
                if is_attached(c0, x) {
                    let (p, kk) = choose|p: int, kk: int|
                        0 <= p < c0.len() && 0 <= kk < c0[p]@.len() && c0[p]@[kk] == x;
                    assert(c2[p]@[kk] == x);
                    assert(is_attached(c2, x));
                }
                if exists|b: int| 0 <= b < n && list[b] == x {
                    let b = choose|b: int| 0 <= b < n && list[b] == x;
                    assert(c2[id as int]@[b] == x);
                    assert(is_attached(c2, x));
                }
            }
            assert(single_parents(c2)) by {
                assert forall|p1: int, k1: int, p2: int, k2: int|
                    0 <= p1 < c2.len() && 0 <= k1 < c2[p1]@.len() && 0 <= p2 < c2.len() && 0 <= k2
                        < c2[p2]@.len() && #[trigger] c2[p1]@[k1] == #[trigger] c2[p2]@[k2] implies p1
                    == p2 && k1 == k2 by {
                    if p1 == id && p2 == id {
                        if k1 != k2 {
                            assert(list[k1] != list[k2]);
                        }
                    } else if p1 == id {
                        assert(c0[p2]@[k2] == list[k1]);
                        assert(is_attached(c0, list[k1]));
                        assert(old(self).attached@[list[k1] as int]);
                        assert(false);
                    } else if p2 == id {
                        assert(c0[p1]@[k1] == list[k2]);
                        assert(is_attached(c0, list[k2]));
                        assert(old(self).attached@[list[k2] as int]);
                        assert(false);
                    } else {
                        assert(c2[p1]@ == c0[p1]@ && c2[p2]@ == c0[p2]@);
                    }
                }
            }
            // the adopted subtrees are duplicate-free and pairwise disjoint
            let kids_seq = self.shapes@[id as int].kids();
            assert forall|kk: int| 0 <= kk < kids_seq.len() implies (#[trigger] preorder(
                kids_seq[kk],
            )).no_duplicates() by {
                assert(kids_seq[kk] == pre_shapes[list[kk] as int]);
            }
            assert forall|k1: int, k2: int, x: int|
                #![trigger preorder(kids_seq[k1]).contains(x), preorder(kids_seq[k2]).contains(x)]
                0 <= k1 < kids_seq.len() && 0 <= k2 < kids_seq.len() && k1 != k2 implies !(preorder(
                kids_seq[k1],
            ).contains(x) && preorder(kids_seq[k2]).contains(x)) by {
                assert(kids_seq[k1] == pre_shapes[list[k1] as int]);
                assert(kids_seq[k2] == pre_shapes[list[k2] as int]);
                assert(list[k1] != list[k2]);
                assert(!old(self).attached@[list[k1] as int] && !old(self).attached@[list[k2] as int]);
            }
            lemma_pk_disjoint_nodup(kids_seq);
            assert forall|i: int| 0 <= i < id implies !(#[trigger] preorder(
                pre_shapes[i],
            )).contains(id as int) by {
                lemma_pre_bounded(c0, i, pre_shapes[i]);
            }
            assert(!crate::tree::preorder_kids(kids_seq).contains(id as int)) by {
                if crate::tree::preorder_kids(kids_seq).contains(id as int) {
                    let kk = choose|kk: int|
                        0 <= kk < kids_seq.len() && preorder(kids_seq[kk]).contains(id as int);
                    assert(kids_seq[kk] == pre_shapes[list[kk] as int]);
                }
            }
            assert(preorder(self.shapes@[id as int]) == seq![id as int]
                + crate::tree::preorder_kids(kids_seq));
            lemma_nodup_join_ids(seq![id as int], crate::tree::preorder_kids(kids_seq));
            assert(shapes_tidy(self.shapes@)) by {
                assert forall|i: int| 0 <= i < self.shapes@.len() implies (#[trigger] preorder(
                    self.shapes@[i],
                )).no_duplicates() by {
                    if i < id {
                        assert(self.shapes@[i] == pre_shapes[i]);
                    }
                }
            }
            assert(roots_separated(self.shapes@, self.attached@)) by {
                assert forall|r1: int, r2: int, x: int|
                    #![trigger preorder(self.shapes@[r1]).contains(x), preorder(self.shapes@[r2]).contains(x)]
                    0 <= r1 < self.shapes@.len() && 0 <= r2 < self.shapes@.len() && r1 != r2
                        && !self.attached@[r1] && !self.attached@[r2] && preorder(
                        self.shapes@[r1],
                    ).contains(x) implies !preorder(self.shapes@[r2]).contains(x) by {
                    if r1 < id && r2 < id {
                        assert(self.shapes@[r1] == pre_shapes[r1]);
                        assert(self.shapes@[r2] == pre_shapes[r2]);
                        assert(!old(self).attached@[r1] && !old(self).attached@[r2]);
                    } else {
                        let other = if r1 == id { r2 } else { r1 };
                        assert(self.shapes@[other] == pre_shapes[other]);
                        assert(!old(self).attached@[other]);
                        assert(forall|b: int| 0 <= b < n ==> list[b] != other);
                        if preorder(self.shapes@[id as int]).contains(x) && preorder(
                            self.shapes@[other],
                        ).contains(x) {
                            let j = choose|j: int|
                                0 <= j < preorder(self.shapes@[id as int]).len() && preorder(
                                    self.shapes@[id as int],
                                )[j] == x;
                            if j == 0 {
                                assert(x == id);
                                assert(preorder(pre_shapes[other]).contains(id as int));
                            } else {
                                assert(crate::tree::preorder_kids(kids_seq).contains(x));
                                let kk = choose|kk: int|
                                    0 <= kk < kids_seq.len() && preorder(kids_seq[kk]).contains(x);
                                assert(kids_seq[kk] == pre_shapes[list[kk] as int]);
                                assert(!old(self).attached@[list[kk] as int]);
                                assert(list[kk] != other);
                            }
                        }
                    }
                }
            }
        }
        Ok(id)
    }

    /// Compute the indices of the rectangles that need to be redrawn,
    /// parents before children and each at most once, and consume the dirty
    /// set.
    ///
    /// Done by walking the tree from the root: a dirty node contributes its
    /// whole subtree, which is not searched further; a clean node is searched
    /// on.
    pub fn compute_redraw(&mut self) -> (r: &Vec<usize>)
        requires
            old(self).wf(),
            old(self).spec_len() > 0,
        ensures
            final(self).wf(),
            final(self).redraw@ == crate::tree::usizes(
                spec_explore(
                    shape_of(old(self).children@, old(self).root as int),
                    old(self).dirty@,
                ),
            ),
            final(self).dirty@ == Seq::<usize>::empty(),
            r@ == final(self).redraw@,
            final(self).root == old(self).root,
            final(self).layouts@ == old(self).layouts@,
            final(self).rects@ == old(self).rects@,
            final(self).children@ == old(self).children@,
            final(self).styles@ == old(self).styles@,
            final(self).stylesheets@ == old(self).stylesheets@,
            final(self).attached@ == old(self).attached@,
            final(self).shapes@ == old(self).shapes@,
            final(self).mouse == old(self).mouse,
            final(self).hovered == old(self).hovered,
            final(self).clicked == old(self).clicked,
    {
        self.redraw.clear();

        // Recurse from the root node
        proof {
            assert(shape_matches(self.children@, self.root as int, self.shapes@[self.root as int]));
        }
        recurse_explore_children(self.root, &self.children, &self.dirty, &mut self.redraw);

        // The dirty set is consumed by the resolution
        self.dirty.clear();
        &self.redraw
    }
}

/// The children of `list` are in range, detached, and pairwise distinct:
/// adopting them keeps the children lists a forest.
pub open spec fn roots_ok(d: DOM, list: Seq<usize>) -> bool {
    &&& forall|a: int|
        0 <= a < list.len() ==> (#[trigger] list[a]) < d.spec_len() && !d.attached@[list[a] as int]
    &&& forall|a: int, b: int|
        0 <= a < b < list.len() ==> (#[trigger] list[a]) != (#[trigger] list[b])
}

/// The redraw list of one subtree: a dirty node contributes its whole
/// subtree; a clean one is searched on.
pub open spec fn spec_explore(s: Shape, dirty: Seq<usize>) -> Seq<int>
    decreases s, 1int,
{
    if dirty.contains(s.id() as usize) {
        crate::tree::preorder(s)
    } else {
        explore_kids(s.kids(), dirty)
    }
}

/// The concatenated redraw lists of a list of subtrees.
pub open spec fn explore_kids(kids: Seq<Shape>, dirty: Seq<usize>) -> Seq<int>
    decreases kids, 0int,
{
    if kids.len() == 0 {
        Seq::empty()
    } else {
        spec_explore(kids[0], dirty) + explore_kids(kids.drop_first(), dirty)
    }
}

/// Whether a list holds an id.
fn contains_id(list: &Vec<usize>, x: usize) -> (r: bool)
    ensures
        r == list@.contains(x),
{
    let n = list.len();
    let mut j: usize = 0;
    while j < n
        invariant
            j <= n,
            n == list@.len(),
            forall|a: int| 0 <= a < j ==> list@[a] != x,
        decreases n - j,
    {
        if list[j] == x {
            return true;
        }
        j = j + 1;
    }
    false
}

/// Add a subtree to the redraw list, the node before its children.
fn add_node(
    index: usize,
    children: &Vec<Vec<usize>>,
    out: &mut Vec<usize>,
    Ghost(s): Ghost<crate::tree::Shape>,
)
    requires
        shape_matches(children@, index as int, s),
    ensures
        final(out)@ == old(out)@ + crate::tree::usizes(crate::tree::preorder(s)),
    decreases s,
{
    out.push(index);
    let ghost goal = old(out)@ + crate::tree::usizes(crate::tree::preorder(s));
    proof {
        crate::tree::lemma_usizes_add(
            seq![s.id()],
            crate::tree::preorder_kids(s.kids()),
        );
        assert(crate::tree::usizes(seq![s.id()]) =~= seq![index]);
        assert(out@ == old(out)@ + seq![index]);
        assert(s.kids().skip(0) =~= s.kids());
    }
    let n = children[index].len();
    let mut k: usize = 0;
    while k < n
        invariant
            shape_matches(children@, index as int, s),
            k <= n,
            n == children@[index as int]@.len(),
            goal == out@ + crate::tree::usizes(crate::tree::preorder_kids(s.kids().skip(k as int))),
        decreases n - k,
    {
        let ghost o0 = out@;
        let idx = children[index][k];
        proof {
            crate::tree::lemma_kid_matches(children@, index as int, s, k as int);
        }
        add_node(idx, children, out, Ghost(s.kids()[k as int]));
        proof {
            let kids = s.kids();
            let pre = kids.skip(k as int);
            assert(pre[0] == kids[k as int]);
            assert(pre.drop_first() =~= kids.skip(k + 1 as int));
            crate::tree::lemma_usizes_add(
                crate::tree::preorder(kids[k as int]),
                crate::tree::preorder_kids(kids.skip(k + 1 as int)),
            );
        }
        k = k + 1;
    }
}

/// Recursively add a node and all its descendants to the output list, the
/// node first.
pub fn recurse_add_children(index: usize, children: &Vec<Vec<usize>>, out: &mut Vec<usize>)
    requires
        index < children@.len(),
        exists|s: crate::tree::Shape| shape_matches(children@, index as int, s),
    ensures
        final(out)@ == old(out)@ + crate::tree::usizes(
            crate::tree::preorder(shape_of(children@, index as int)),
        ),
{
    let ghost s = shape_of(children@, index as int);
    proof {
        assert(shape_matches(children@, index as int, s));
    }
    add_node(index, children, out, Ghost(s));
}

/// The redraw walk along a known subtree shape.
fn explore_node(
    index: usize,
    children: &Vec<Vec<usize>>,
    dirty: &Vec<usize>,
    out: &mut Vec<usize>,
    Ghost(s): Ghost<crate::tree::Shape>,
)
    requires
        shape_matches(children@, index as int, s),
    ensures
        final(out)@ == old(out)@ + crate::tree::usizes(spec_explore(s, dirty@)),
    decreases s,
{
    if contains_id(dirty, index) {
        add_node(index, children, out, Ghost(s));
        return;
    }

    let ghost goal = old(out)@ + crate::tree::usizes(spec_explore(s, dirty@));
    proof {
        assert(s.kids().skip(0) =~= s.kids());
        assert(out@ + crate::tree::usizes(Seq::<int>::empty()) =~= out@);
    }
    let n = children[index].len();
    let mut k: usize = 0;
    while k < n
        invariant
            shape_matches(children@, index as int, s),
            k <= n,
            n == children@[index as int]@.len(),
            goal == out@ + crate::tree::usizes(explore_kids(s.kids().skip(k as int), dirty@)),
        decreases n - k,
    {
        let idx = children[index][k];
        proof {
            crate::tree::lemma_kid_matches(children@, index as int, s, k as int);
        }
        explore_node(idx, children, dirty, out, Ghost(s.kids()[k as int]));
        proof {
            let kids = s.kids();
            let pre = kids.skip(k as int);
            assert(pre[0] == kids[k as int]);
            assert(pre.drop_first() =~= kids.skip(k + 1 as int));
            crate::tree::lemma_usizes_add(
                spec_explore(kids[k as int], dirty@),
                explore_kids(kids.skip(k + 1 as int), dirty@),
            );
        }
        k = k + 1;
    }
    proof {
        assert(s.kids().skip(n as int).len() == 0);
        assert(out@ + crate::tree::usizes(explore_kids(s.kids().skip(n as int), dirty@)) =~= out@);
    }
}

/// Recursively explore children until a dirty node is found; a dirty node's
/// subtree is added whole and not searched further.
pub fn recurse_explore_children(
    index: usize,
    children: &Vec<Vec<usize>>,
    dirty: &Vec<usize>,
    out: &mut Vec<usize>,
)
    requires
        index < children@.len(),
        exists|s: crate::tree::Shape| shape_matches(children@, index as int, s),
    ensures
        final(out)@ == old(out)@ + crate::tree::usizes(
            spec_explore(shape_of(children@, index as int), dirty@),
        ),
{
    let ghost s = shape_of(children@, index as int);
    proof {
        assert(shape_matches(children@, index as int, s));
    }
    explore_node(index, children, dirty, out, Ghost(s));
}

/// The hit target of a scene at a point: the deepest node of the root's tree
/// containing it.
pub open spec fn hit_at(d: DOM, mx: int, my: int) -> Option<int> {
    crate::mouse::spec_hit(d.rects@, shape_of(d.children@, d.root as int), mx, my)
}

/// A hit turned into a node id.
pub open spec fn opt_id(hit: Option<int>) -> Option<usize> {
    match hit {
        Some(i) => Some(i as usize),
        None => None,
    }
}

/// The computed styles after the hover styling leaves `hov`, where `hov`
/// exists and has hover rules.
pub open spec fn styles_reset_hover(
    styles: Seq<ComputedStyle>,
    sheets: Seq<StyleSheet>,
    hov: Option<usize>,
) -> Seq<ComputedStyle> {
    match hov {
        Some(h) => if !(sheets[h as int].hovered@.dom() =~= Set::<u8>::empty()) {
            styles.update(
                h as int,
                crate::styles::spec_reset_map(
                    sheets[h as int].default@,
                    sheets[h as int].hovered@,
                    styles[h as int],
                ),
            )
        } else {
            styles
        },
        None => styles,
    }
}

/// The dirty list after the hover styling leaves `hov`.
pub open spec fn dirty_reset_hover(
    dirty: Seq<usize>,
    sheets: Seq<StyleSheet>,
    hov: Option<usize>,
) -> Seq<usize> {
    match hov {
        Some(h) => if !(sheets[h as int].hovered@.dom() =~= Set::<u8>::empty()) {
            dirty.push(h)
        } else {
            dirty
        },
        None => dirty,
    }
}

/// The computed styles after the hover styling lands on `target`, where
/// `target` exists and has hover rules.
pub open spec fn styles_apply_hover(
    styles: Seq<ComputedStyle>,
    sheets: Seq<StyleSheet>,
    target: Option<usize>,
) -> Seq<ComputedStyle> {
    match target {
        Some(n) => if !(sheets[n as int].hovered@.dom() =~= Set::<u8>::empty()) {
            styles.update(
                n as int,
                crate::styles::spec_overlay(sheets[n as int].hovered@, styles[n as int]),
            )
        } else {
            styles
        },
        None => styles,
    }
}

/// The dirty list after the hover styling lands on `target`.
pub open spec fn dirty_apply_hover(
    dirty: Seq<usize>,
    sheets: Seq<StyleSheet>,
    target: Option<usize>,
) -> Seq<usize> {
    match target {
        Some(n) => if !(sheets[n as int].hovered@.dom() =~= Set::<u8>::empty()) {
            dirty.push(n)
        } else {
            dirty
        },
        None => dirty,
    }
}

/// The computed styles after the hover styling is reset on `hov`.
pub open spec fn styles_unhover(
    styles: Seq<ComputedStyle>,
    sheets: Seq<StyleSheet>,
    hov: Option<usize>,
) -> Seq<ComputedStyle> {
    match hov {
        Some(h) => styles.update(
            h as int,
            crate::styles::spec_reset_map(
                sheets[h as int].default@,
                sheets[h as int].hovered@,
                styles[h as int],
            ),
        ),
        None => styles,
    }
}

/// The computed styles after the clicked styling is reset on `c`.
pub open spec fn styles_unclick(
    styles: Seq<ComputedStyle>,
    sheets: Seq<StyleSheet>,
    c: Option<usize>,
) -> Seq<ComputedStyle> {
    match c {
        Some(i) => styles.update(
            i as int,
            crate::styles::spec_reset_map(
                sheets[i as int].default@,
                sheets[i as int].clicked@,
                styles[i as int],
            ),
        ),
        None => styles,
    }
}

/// The computed styles after the hover styling is applied to `target`.
pub open spec fn styles_hover(
    styles: Seq<ComputedStyle>,
    sheets: Seq<StyleSheet>,
    target: Option<usize>,
) -> Seq<ComputedStyle> {
    match target {
        Some(n) => styles.update(
            n as int,
            crate::styles::spec_overlay(sheets[n as int].hovered@, styles[n as int]),
        ),
        None => styles,
    }
}

/// The computed styles after the clicked styling is applied to `target`.
pub open spec fn styles_click(
    styles: Seq<ComputedStyle>,
    sheets: Seq<StyleSheet>,
    target: Option<usize>,
) -> Seq<ComputedStyle> {
    match target {
        Some(n) => styles.update(
            n as int,
            crate::styles::spec_overlay(sheets[n as int].clicked@, styles[n as int]),
        ),
        None => styles,
    }
}

/// The dirty list after a node is marked.
pub open spec fn dirty_mark(dirty: Seq<usize>, node: Option<usize>) -> Seq<usize> {
    match node {
        Some(n) => dirty.push(n),
        None => dirty,
    }
}

/// The redraw list of a subtree holds only ids of that subtree.
proof fn lemma_explore_within(s: Shape, dirty: Seq<usize>)
    ensures
        forall|x: int|
            #[trigger] spec_explore(s, dirty).contains(x) ==> crate::tree::preorder(
                s,
            ).contains(x),
    decreases s, 1int,
{
    if !dirty.contains(s.id() as usize) {
        lemma_explore_kids_within(s.kids(), dirty);
        assert forall|x: int| #[trigger]
            spec_explore(s, dirty).contains(x) implies crate::tree::preorder(
            s,
        ).contains(x) by {
            assert(explore_kids(s.kids(), dirty).contains(x));
            assert(crate::tree::preorder_kids(s.kids()).contains(x));
            let i = choose|i: int|
                0 <= i < crate::tree::preorder_kids(s.kids()).len() && crate::tree::preorder_kids(
                    s.kids(),
                )[i] == x;
            assert(crate::tree::preorder(s) == seq![s.id()] + crate::tree::preorder_kids(s.kids()));
            assert(crate::tree::preorder(s)[1 + i] == x);
        }
    }
}

/// The redraw lists of a list of subtrees hold only their ids.
proof fn lemma_explore_kids_within(kids: Seq<Shape>, dirty: Seq<usize>)
    ensures
        forall|x: int|
            #[trigger] explore_kids(kids, dirty).contains(x)
                ==> crate::tree::preorder_kids(kids).contains(x),
    decreases kids, 0int,
{
    if kids.len() > 0 {
        lemma_explore_within(kids[0], dirty);
        lemma_explore_kids_within(kids.drop_first(), dirty);
        let out = explore_kids(kids, dirty);
        let a = spec_explore(kids[0], dirty);
        let b = explore_kids(kids.drop_first(), dirty);
        assert forall|x: int| #[trigger] out.contains(x) implies crate::tree::preorder_kids(
            kids,
        ).contains(x) by {
            let i = choose|i: int| 0 <= i < out.len() && out[i] == x;
            if i < a.len() {
                assert(a.contains(x));
                let j = choose|j: int|
                    0 <= j < crate::tree::preorder(kids[0]).len() && crate::tree::preorder(
                        kids[0],
                    )[j] == x;
                assert(crate::tree::preorder_kids(kids)[j] == x);
            } else {
                assert(b[i - a.len()] == x);
                assert(b.contains(x));
                let j = choose|j: int|
                    0 <= j < crate::tree::preorder_kids(kids.drop_first()).len()
                        && crate::tree::preorder_kids(kids.drop_first())[j] == x;
                assert(crate::tree::preorder_kids(kids)[crate::tree::preorder(kids[0]).len() + j]
                    == x);
            }
        }
    }
}

/// A duplicate-free subtree resolves to a duplicate-free redraw list.
proof fn lemma_explore_nodup(s: Shape, dirty: Seq<usize>)
    requires
        crate::tree::preorder(s).no_duplicates(),
    ensures
        spec_explore(s, dirty).no_duplicates(),
    decreases s, 1int,
{
    if !dirty.contains(s.id() as usize) {
        assert(crate::tree::preorder(s) == seq![s.id()] + crate::tree::preorder_kids(s.kids()));
        crate::tree::lemma_nodup_split_ids(seq![s.id()], crate::tree::preorder_kids(s.kids()));
        lemma_explore_kids_nodup(s.kids(), dirty);
    }
}

/// Duplicate-free subtrees resolve to duplicate-free, disjoint redraw lists.
proof fn lemma_explore_kids_nodup(kids: Seq<Shape>, dirty: Seq<usize>)
    requires
        crate::tree::preorder_kids(kids).no_duplicates(),
    ensures
        explore_kids(kids, dirty).no_duplicates(),
    decreases kids, 0int,
{
    if kids.len() > 0 {
        let a = crate::tree::preorder(kids[0]);
        let b = crate::tree::preorder_kids(kids.drop_first());
        assert(crate::tree::preorder_kids(kids) == a + b);
        crate::tree::lemma_nodup_split_ids(a, b);
        lemma_explore_nodup(kids[0], dirty);
        lemma_explore_kids_nodup(kids.drop_first(), dirty);
        lemma_explore_within(kids[0], dirty);
        lemma_explore_kids_within(kids.drop_first(), dirty);
        lemma_nodup_join_ids(
            spec_explore(kids[0], dirty),
            explore_kids(kids.drop_first(), dirty),
        );
    }
}

/// Where explore hits a dirty subtree, the subtree's marked root stands in
/// the output before every other id of the subtree.
proof fn lemma_explore_covers(s: Shape, dirty: Seq<usize>, t: Shape, b: int)
    requires
        crate::tree::subshape(s, t),
        dirty.contains(t.id() as usize),
        crate::tree::preorder(t).contains(b),
        b != t.id(),
    ensures
        exists|i: int, j: int|
            0 <= i < j < spec_explore(s, dirty).len() && spec_explore(
                s,
                dirty,
            )[i] == t.id() && spec_explore(s, dirty)[j] == b,
    decreases s, 1int,
{
    let out = spec_explore(s, dirty);
    if dirty.contains(s.id() as usize) {
        crate::tree::lemma_pre_positions(s, t, b);
    } else {
        assert(s != t);
        let k = choose|k: int| 0 <= k < s.kids().len() && crate::tree::subshape(s.kids()[k], t);
        lemma_explore_covers(s.kids()[k], dirty, t, b);
        lemma_explore_kids_embed(s.kids(), dirty, k);
        let (i1, j1) = choose|i1: int, j1: int|
            0 <= i1 < j1 < spec_explore(s.kids()[k], dirty).len()
                && spec_explore(s.kids()[k], dirty)[i1] == t.id()
                && spec_explore(s.kids()[k], dirty)[j1] == b;
        let off = ek_offset(s.kids(), dirty, k);
        assert(out[off + i1] == t.id() && out[off + j1] == b);
        assert(0 <= off + i1 < off + j1 < out.len());
    }
}

/// Where kid `k`'s redraw list starts inside the concatenated lists.
spec fn ek_offset(kids: Seq<Shape>, dirty: Seq<usize>, k: int) -> int
    decreases k,
{
    if k <= 0 {
        0
    } else {
        spec_explore(kids[0], dirty).len() + ek_offset(kids.drop_first(), dirty, k - 1)
    }
}

/// Kid `k`'s redraw list sits verbatim inside the concatenated lists, at its
/// offset.
proof fn lemma_explore_kids_embed(kids: Seq<Shape>, dirty: Seq<usize>, k: int)
    requires
        0 <= k < kids.len(),
    ensures
        0 <= ek_offset(kids, dirty, k),
        ek_offset(kids, dirty, k) + spec_explore(kids[k], dirty).len()
            <= explore_kids(kids, dirty).len(),
        forall|i: int|
            0 <= i < spec_explore(kids[k], dirty).len() ==> explore_kids(
                kids,
                dirty,
            )[ek_offset(kids, dirty, k) + i] == #[trigger] spec_explore(
                kids[k],
                dirty,
            )[i],
    decreases k,
{
    if k == 0 {
        assert(explore_kids(kids, dirty) == spec_explore(kids[0], dirty)
            + explore_kids(kids.drop_first(), dirty));
    } else {
        lemma_explore_kids_embed(kids.drop_first(), dirty, k - 1);
        assert(kids.drop_first()[k - 1] == kids[k]);
        let off = ek_offset(kids, dirty, k);
        let off1 = ek_offset(kids.drop_first(), dirty, k - 1);
        assert(off == spec_explore(kids[0], dirty).len() + off1);
        assert forall|i: int|
            0 <= i < spec_explore(kids[k], dirty).len() implies explore_kids(
            kids,
            dirty,
        )[off + i] == #[trigger] spec_explore(kids[k], dirty)[i] by {
            assert(explore_kids(kids, dirty) == spec_explore(
                kids[0],
                dirty,
            ) + explore_kids(kids.drop_first(), dirty));
            assert(explore_kids(kids.drop_first(), dirty)[off1 + i]
                == spec_explore(kids.drop_first()[k - 1], dirty)[i]);
        }
    }
}

/// Marking a node and one of its descendants dirty: the redraw list of a
/// duplicate-free tree holds each id at most once, and the marked ancestor
/// stands before the descendant.
pub proof fn law_redraw_dedup(s: Shape, dirty: Seq<usize>, t: Shape, b: int)
    requires
        crate::tree::preorder(s).no_duplicates(),
        crate::tree::subshape(s, t),
        dirty.contains(t.id() as usize),
        crate::tree::preorder(t).contains(b),
        b != t.id(),
    ensures
        ({
            let out = spec_explore(s, dirty);
            &&& out.no_duplicates()
            &&& exists|i: int, j: int|
                0 <= i < j < out.len() && out[i] == t.id() && out[j] == b
        }),
{
    lemma_explore_nodup(s, dirty);
    lemma_explore_covers(s, dirty, t, b);
}

/// Subtrees of a duplicate-free forest hold pairwise disjoint id sets.
proof fn lemma_pk_disjoint(kids: Seq<Shape>)
    requires
        crate::tree::preorder_kids(kids).no_duplicates(),
    ensures
        forall|k1: int, k2: int, x: int|
            #![trigger preorder(kids[k1]).contains(x), preorder(kids[k2]).contains(x)]
            0 <= k1 < k2 < kids.len() ==> !(preorder(kids[k1]).contains(x) && preorder(
                kids[k2],
            ).contains(x)),
    decreases kids,
{
    if kids.len() > 0 {
        let a = preorder(kids[0]);
        let b = crate::tree::preorder_kids(kids.drop_first());
        assert(crate::tree::preorder_kids(kids) == a + b);
        crate::tree::lemma_nodup_split_ids(a, b);
        lemma_pk_disjoint(kids.drop_first());
        assert forall|k1: int, k2: int, x: int|
            0 <= k1 < k2 < kids.len() implies !(#[trigger] preorder(kids[k1]).contains(x)
            && #[trigger] preorder(kids[k2]).contains(x)) by {
            if k1 == 0 {
                if preorder(kids[0]).contains(x) && preorder(kids[k2]).contains(x) {
                    assert(kids.drop_first()[k2 - 1] == kids[k2]);
                    crate::tree::lemma_pk_embed(kids.drop_first(), k2 - 1);
                    let i = choose|i: int|
                        0 <= i < preorder(kids[k2]).len() && preorder(kids[k2])[i] == x;
                    assert(b[crate::tree::pk_offset(kids.drop_first(), k2 - 1) + i] == x);
                    assert(b.contains(x));
                }
            } else {
                assert(kids.drop_first()[k1 - 1] == kids[k1]);
                assert(kids.drop_first()[k2 - 1] == kids[k2]);
            }
        }
    }
}

/// An id of the redraw list comes from the redraw list of one of the
/// subtrees.
proof fn lemma_explore_member(kids: Seq<Shape>, dirty: Seq<usize>, x: int)
    requires
        explore_kids(kids, dirty).contains(x),
    ensures
        exists|k: int| 0 <= k < kids.len() && spec_explore(#[trigger] kids[k], dirty).contains(x),
    decreases kids,
{
    let a = spec_explore(kids[0], dirty);
    let b = explore_kids(kids.drop_first(), dirty);
    assert(explore_kids(kids, dirty) == a + b);
    let j = choose|j: int| 0 <= j < (a + b).len() && (a + b)[j] == x;
    if j < a.len() {
        assert(a[j] == x);
        assert(spec_explore(kids[0], dirty).contains(x));
    } else {
        assert(b[j - a.len()] == x);
        assert(b.contains(x));
        lemma_explore_member(kids.drop_first(), dirty, x);
        let k = choose|k: int|
            0 <= k < kids.drop_first().len() && spec_explore(
                kids.drop_first()[k],
                dirty,
            ).contains(x);
        assert(kids.drop_first()[k] == kids[k + 1]);
        assert(spec_explore(kids[k + 1], dirty).contains(x));
    }
}

/// Wherever the redraw list holds both a subtree's root and another id of
/// that subtree, the root stands strictly earlier.
proof fn lemma_explore_order(s: Shape, dirty: Seq<usize>, t: Shape, b: int)
    requires
        crate::tree::preorder(s).no_duplicates(),
        crate::tree::subshape(s, t),
        crate::tree::preorder(t).contains(b),
        b != t.id(),
        spec_explore(s, dirty).contains(t.id()),
        spec_explore(s, dirty).contains(b),
    ensures
        exists|i: int, j: int|
            0 <= i < j < spec_explore(s, dirty).len() && spec_explore(s, dirty)[i] == t.id()
                && spec_explore(s, dirty)[j] == b,
    decreases s,
{
    let out = spec_explore(s, dirty);
    if dirty.contains(s.id() as usize) {
        crate::tree::lemma_pre_positions(s, t, b);
    } else {
        let pk = crate::tree::preorder_kids(s.kids());
        assert(crate::tree::preorder(s) == seq![s.id()] + pk);
        crate::tree::lemma_nodup_split_ids(seq![s.id()], pk);
        if s == t {
            // the root's id cannot be in the list: it only holds ids of the
            // child subtrees, and the root's id occurs nowhere below it
            lemma_explore_kids_within(s.kids(), dirty);
            assert(out == explore_kids(s.kids(), dirty));
            assert(explore_kids(s.kids(), dirty).contains(s.id()));
            assert(pk.contains(s.id()));
            assert(seq![s.id()].contains(s.id())) by {
                assert(seq![s.id()][0] == s.id());
            }
            assert(false);
        } else {
            let k = choose|k: int|
                0 <= k < s.kids().len() && crate::tree::subshape(#[trigger] s.kids()[k], t);
            crate::tree::lemma_pre_positions(s.kids()[k], t, b);
            assert(preorder(s.kids()[k]).contains(t.id()) && preorder(s.kids()[k]).contains(b)) by {
                let (i1, j1) = choose|i1: int, j1: int|
                    0 <= i1 < j1 < preorder(s.kids()[k]).len() && preorder(s.kids()[k])[i1]
                        == t.id() && preorder(s.kids()[k])[j1] == b;
            }
            assert(preorder(s.kids()[k]).no_duplicates()) by {
                crate::tree::lemma_pk_embed(s.kids(), k);
                let off = crate::tree::pk_offset(s.kids(), k);
                assert forall|i1: int, j1: int|
                    0 <= i1 < preorder(s.kids()[k]).len() && 0 <= j1 < preorder(
                        s.kids()[k],
                    ).len() && i1 != j1 implies preorder(s.kids()[k])[i1] != preorder(
                    s.kids()[k],
                )[j1] by {
                    assert(pk[off + i1] == preorder(s.kids()[k])[i1]);
                    assert(pk[off + j1] == preorder(s.kids()[k])[j1]);
                }
            }
            lemma_pk_disjoint(s.kids());
            assert(spec_explore(s.kids()[k], dirty).contains(t.id())) by {
                lemma_explore_member(s.kids(), dirty, t.id());
                let k1 = choose|k1: int|
                    0 <= k1 < s.kids().len() && spec_explore(
                        #[trigger] s.kids()[k1],
                        dirty,
                    ).contains(t.id());
                lemma_explore_within(s.kids()[k1], dirty);
                assert(preorder(s.kids()[k1]).contains(t.id()));
                assert(k1 == k);
            }
            assert(spec_explore(s.kids()[k], dirty).contains(b)) by {
                lemma_explore_member(s.kids(), dirty, b);
                let k1 = choose|k1: int|
                    0 <= k1 < s.kids().len() && spec_explore(
                        #[trigger] s.kids()[k1],
                        dirty,
                    ).contains(b);
                lemma_explore_within(s.kids()[k1], dirty);
                assert(preorder(s.kids()[k1]).contains(b));
                assert(k1 == k);
            }
            lemma_explore_order(s.kids()[k], dirty, t, b);
            lemma_explore_kids_embed(s.kids(), dirty, k);
            let (i1, j1) = choose|i1: int, j1: int|
                0 <= i1 < j1 < spec_explore(s.kids()[k], dirty).len() && spec_explore(
                    s.kids()[k],
                    dirty,
                )[i1] == t.id() && spec_explore(s.kids()[k], dirty)[j1] == b;
            let off = ek_offset(s.kids(), dirty, k);
            assert(out[off + i1] == t.id() && out[off + j1] == b);
            assert(0 <= off + i1 < off + j1 < out.len());
        }
    }
}

/// Ancestors precede descendants in the redraw list of a duplicate-free
/// tree: whenever the list holds both a subtree's root and another id of
/// that subtree — whichever dirty marks produced them — the root stands
/// strictly earlier, and each id appears at most once.
pub proof fn law_redraw_ancestor_order(s: Shape, dirty: Seq<usize>, t: Shape, b: int)
    requires
        crate::tree::preorder(s).no_duplicates(),
        crate::tree::subshape(s, t),
        crate::tree::preorder(t).contains(b),
        b != t.id(),
        spec_explore(s, dirty).contains(t.id()),
        spec_explore(s, dirty).contains(b),
    ensures
        spec_explore(s, dirty).no_duplicates(),
        forall|i: int, j: int|
            #![trigger spec_explore(s, dirty)[i], spec_explore(s, dirty)[j]]
            0 <= i < spec_explore(s, dirty).len() && 0 <= j < spec_explore(s, dirty).len()
                && spec_explore(s, dirty)[i] == t.id() && spec_explore(s, dirty)[j] == b ==> i < j,
{
    lemma_explore_nodup(s, dirty);
    lemma_explore_order(s, dirty, t, b);
    let out = spec_explore(s, dirty);
    let (i0, j0) = choose|i0: int, j0: int|
        0 <= i0 < j0 < out.len() && out[i0] == t.id() && out[j0] == b;
    assert forall|i: int, j: int|
        0 <= i < out.len() && 0 <= j < out.len() && out[i] == t.id() && out[j]
            == b implies i < j by {
        assert(i == i0);
        assert(j == j0);
    }
}

} // verus!
