//! Walking a quadtree from the top, opening some divided squares and taking
//! others whole.
//!
//! A force or collision query visits nodes one by one and decides at each
//! divided square whether to open it, that is to visit its four children in
//! its place, or to take it as one mass. The decision needs the geometry and
//! is the caller's. The walk keeps the order of visits and guarantees that,
//! whatever is decided, the nodes taken form a partition: every leaf under
//! the starting node is taken exactly once, by itself or within one divided
//! square that was taken whole, and no square is opened twice.

use crate::quad_tree::index_of;
use crate::quad_tree::QuadTree;
use crate::quad_tree::Quadrant;
use crate::quad_tree::Slot;
use vstd::prelude::*;

verus! {

/// Whether `id` is a node of `tree` in the subtree of `top`.
pub open spec fn under(tree: &QuadTree, top: int, id: int) -> bool {
    0 <= id < tree.node_count() && tree.path_of(top).is_prefix_of(tree.path_of(id))
}

/// The four children of a divided node whose first child is `first`.
pub open spec fn children(first: int) -> Seq<int> {
    seq![first, first + 1, first + 2, first + 3]
}

proof fn lemma_prefix_chain(a: Seq<Quadrant>, b: Seq<Quadrant>, c: Seq<Quadrant>)
    requires
        a.is_prefix_of(b),
        b.is_prefix_of(c),
    ensures
        a.is_prefix_of(c),
{
    assert(a =~= c.subrange(0, a.len() as int)) by {
        assert forall|i: int| 0 <= i < a.len() implies a[i] == c.subrange(0, a.len() as int)[i] by {
            assert(a[i] == b.subrange(0, a.len() as int)[i]);
            assert(b[i] == c.subrange(0, b.len() as int)[i]);
        }
    }
}

proof fn lemma_prefix_of_longer(a: Seq<Quadrant>, s: Seq<Quadrant>, x: Quadrant)
    requires
        a.is_prefix_of(s.push(x)),
    ensures
        a.is_prefix_of(s) || a == s.push(x),
{
    if a.len() <= s.len() {
        assert(a =~= s.subrange(0, a.len() as int)) by {
            assert forall|i: int| 0 <= i < a.len() implies a[i] == s.subrange(0, a.len() as int)[i] by {
                assert(a[i] == s.push(x).subrange(0, a.len() as int)[i]);
            }
        }
    } else {
        assert(a =~= s.push(x));
    }
}

proof fn lemma_prefixes_of_one(a: Seq<Quadrant>, b: Seq<Quadrant>, c: Seq<Quadrant>)
    requires
        a.is_prefix_of(c),
        b.is_prefix_of(c),
        a.len() <= b.len(),
    ensures
        a.is_prefix_of(b),
{
    assert(a =~= b.subrange(0, a.len() as int)) by {
        assert forall|i: int| 0 <= i < a.len() implies a[i] == b.subrange(0, a.len() as int)[i] by {
            assert(a[i] == c.subrange(0, a.len() as int)[i]);
            assert(b[i] == c.subrange(0, b.len() as int)[i]);
        }
    }
}

/// A walk over the subtree of one node of a quadtree.
pub struct Walk {
    start: usize,
    stack: Vec<usize>,
    current: Option<usize>,
    line: Ghost<Seq<int>>,
    cursor: Ghost<int>,
    opened: Ghost<Set<int>>,
}

impl Walk {
    /// The node at which the walk began.
    pub closed spec fn origin(&self) -> int {
        self.start as int
    }

    /// The nodes that stand for the subtree at this point of the walk, in
    /// the order of their visits: first those already visited and taken, then
    /// those still to be visited.
    pub closed spec fn frontier(&self) -> Seq<int> {
        self.line@
    }

    /// How many nodes of the frontier have been visited.
    pub closed spec fn visited(&self) -> int {
        self.cursor@
    }

    /// The node that was visited last, as long as it can still be opened.
    pub closed spec fn current(&self) -> Option<int> {
        match self.current {
            Some(id) => Some(id as int),
            None => None,
        }
    }

    /// The divided squares that were opened.
    pub closed spec fn opened(&self) -> Set<int> {
        self.opened@
    }

    spec fn covered(&self, tree: &QuadTree, leaf: int) -> bool {
        exists|i: int| 0 <= i < self.line@.len() && #[trigger] self.covers_at(tree, i, leaf)
    }

    spec fn covers_at(&self, tree: &QuadTree, i: int, leaf: int) -> bool {
        tree.path_of(self.line@[i]).is_prefix_of(tree.path_of(leaf))
    }

    spec fn apart(&self, tree: &QuadTree, i: int, j: int) -> bool {
        !tree.path_of(self.line@[i]).is_prefix_of(tree.path_of(self.line@[j]))
    }

    /// The walk's invariant with respect to the tree it walks. The frontier
    /// lies under the origin; no node of it lies under another; every leaf
    /// under the origin lies under a node of it; and no node of it lies above
    /// or at a square that was opened.
    pub closed spec fn wf(&self, tree: &QuadTree) -> bool {
        &&& tree.wf()
        &&& 0 <= self.start < tree.node_count()
        &&& 0 <= self.cursor@ <= self.line@.len()
        &&& self.stack@.len() == self.line@.len() - self.cursor@
        &&& forall|k: int|
            0 <= k < self.stack@.len() ==> #[trigger] self.stack@[k] == self.line@[self.line@.len()
                - 1 - k]
        &&& self.current matches Some(id) ==> self.cursor@ > 0 && self.line@[self.cursor@ - 1]
            == id
        &&& forall|i: int| 0 <= i < self.line@.len() ==> under(tree, self.start as int, #[trigger] self.line@[i])
        &&& forall|i: int, j: int|
            0 <= i < self.line@.len() && 0 <= j < self.line@.len() && i != j ==> #[trigger] self.apart(
                tree,
                i,
                j,
            )
        &&& forall|leaf: int|
            under(tree, self.start as int, leaf) && !(tree.slot(leaf) is Internal)
                ==> #[trigger] self.covered(tree, leaf)
        &&& forall|o: int, i: int|
            self.opened@.contains(o) && 0 <= i < self.line@.len() ==> !#[trigger] self.covers_at(
                tree,
                i,
                o,
            )
    }

    /// A walk that is about to visit `start`.
    pub fn new(tree: &QuadTree, start: usize) -> (walk: Walk)
        requires
            tree.wf(),
            start < tree.node_count(),
        ensures
            walk.wf(tree),
            walk.origin() == start,
            walk.frontier() == seq![start as int],
            walk.visited() == 0,
            walk.current().is_none(),
            walk.opened() == Set::<int>::empty(),
    {
        let mut stack: Vec<usize> = Vec::new();
        stack.push(start);
        let line: Ghost<Seq<int>> = Ghost(Seq::<int>::empty().push(start as int));
        let cursor: Ghost<int> = Ghost(0);
        let opened: Ghost<Set<int>> = Ghost(Set::empty());
        let walk = Walk { start, stack, current: None, line, cursor, opened };
        proof {
            assert(walk.line@ =~= seq![start as int]);
            assert forall|leaf: int|
                under(tree, start as int, leaf) && !(tree.slot(leaf) is Internal) implies #[trigger] walk.covered(
                tree,
                leaf,
            ) by {
                assert(walk.covers_at(tree, 0, leaf));
            }
        }
        walk
    }

    /// Visits the next node: the node after the one visited last, or, where
    /// that one was opened, its first child. The node visited last is thereby
    /// taken whole. Gives nothing when every node of the frontier has been
    /// visited.
    pub fn next(&mut self, tree: &QuadTree) -> (node: Option<usize>)
        requires
            old(self).wf(tree),
        ensures
            final(self).wf(tree),
            final(self).origin() == old(self).origin(),
            final(self).frontier() == old(self).frontier(),
            final(self).opened() == old(self).opened(),
            0 <= old(self).visited() <= old(self).frontier().len(),
            old(self).visited() < old(self).frontier().len() ==> {
                &&& node == Some(old(self).frontier()[old(self).visited()] as usize)
                &&& final(self).current() == Some(old(self).frontier()[old(self).visited()])
                &&& final(self).visited() == old(self).visited() + 1
            },
            old(self).visited() == old(self).frontier().len() ==> {
                &&& node.is_none()
                &&& final(self).current().is_none()
                &&& final(self).visited() == old(self).visited()
            },
    {
        let node: Option<usize> = self.stack.pop();
        self.current = node;
        proof {
            if node.is_some() {
                let top = old(self).stack@.len() - 1;
                assert(old(self).stack@[top] == self.line@[self.line@.len() - 1 - top]);
                assert(under(tree, self.start as int, self.line@[self.cursor@]));
                self.cursor@ = self.cursor@ + 1;
                assert forall|k: int| 0 <= k < self.stack@.len() implies #[trigger] self.stack@[k]
                    == self.line@[self.line@.len() - 1 - k] by {
                    assert(old(self).stack@[k] == self.stack@[k]);
                }
            }
            assert forall|i: int, j: int|
                0 <= i < self.line@.len() && 0 <= j < self.line@.len() && i != j implies #[trigger] self.apart(
                tree,
                i,
                j,
            ) by {
                assert(old(self).apart(tree, i, j));
            }
            assert forall|leaf: int|
                under(tree, self.start as int, leaf) && !(tree.slot(leaf) is Internal) implies #[trigger] self.covered(
                tree,
                leaf,
            ) by {
                assert(old(self).covered(tree, leaf));
                let i = choose|i: int|
                    0 <= i < old(self).line@.len() && #[trigger] old(self).covers_at(tree, i, leaf);
                assert(self.covers_at(tree, i, leaf));
            }
            assert forall|o: int, i: int|
                self.opened@.contains(o) && 0 <= i < self.line@.len() implies !#[trigger] self.covers_at(
                tree,
                i,
                o,
            ) by {
                assert(!old(self).covers_at(tree, i, o));
            }
        }
        node
    }

    /// Opens the node visited last, if it is a divided square: its four
    /// children take its place in the frontier and are visited next, in the
    /// order of their quadrants. Does nothing where no node was visited yet,
    /// where the node visited last is a leaf, and where it was opened already.
    pub fn open(&mut self, tree: &QuadTree)
        requires
            old(self).wf(tree),
        ensures
            final(self).wf(tree),
            final(self).origin() == old(self).origin(),
            old(self).opens(tree) ==> {
                let at = old(self).visited() - 1;
                let node = old(self).frontier()[at];
                &&& old(self).current() == Some(node)
                &&& !old(self).opened().contains(node)
                &&& final(self).frontier() == old(self).frontier().take(at) + children(
                    tree.slot(node)->Internal_0,
                ) + old(self).frontier().skip(at + 1)
                &&& final(self).visited() == at
                &&& final(self).opened() == old(self).opened().insert(node)
                &&& final(self).current().is_none()
            },
            !old(self).opens(tree) ==> {
                &&& final(self).frontier() == old(self).frontier()
                &&& final(self).visited() == old(self).visited()
                &&& final(self).opened() == old(self).opened()
                &&& final(self).current() == old(self).current()
            },
    {
        let first: usize = match self.current {
            Some(id) => {
                assert(under(tree, self.start as int, self.line@[self.cursor@ - 1]));
                match tree.first_child(id) {
                    Some(first) => first,
                    None => {
                        return ;
                    },
                }
            },
            None => {
                return ;
            },
        };
        let count: usize = tree.len();
        assert(first + 3 < count);
        let ghost at = self.cursor@ - 1;
        let ghost node = self.line@[at];
        let ghost was = self.line@;
        let ghost kids = children(first as int);
        let ghost top = tree.path_of(self.start as int);
        let ghost here = tree.path_of(node);
        self.stack.push(first + 3);
        self.stack.push(first + 2);
        self.stack.push(first + 1);
        self.stack.push(first);
        self.current = None;
        proof {
            self.line@ = was.take(at) + kids + was.skip(at + 1);
            self.cursor@ = at;
            self.opened@ = self.opened@.insert(node);
            let q0 = Quadrant { high_x: false, high_y: false };
            let q1 = Quadrant { high_x: true, high_y: false };
            let q2 = Quadrant { high_x: false, high_y: true };
            let q3 = Quadrant { high_x: true, high_y: true };
            tree.lemma_children(node, q0);
            tree.lemma_children(node, q1);
            tree.lemma_children(node, q2);
            tree.lemma_children(node, q3);
            assert(under(tree, self.start as int, node));
            assert(old(self).covers_at(tree, at, node)) by {
                assert(here.is_prefix_of(here));
            }
            // Where each node of the new frontier comes from in the old one.
            let from = |i: int|
                if i < at {
                    i
                } else if i < at + 4 {
                    at
                } else {
                    i - 3
                };
            assert forall|i: int| 0 <= i < self.line@.len() implies {
                &&& 0 <= from(i) < was.len()
                &&& 0 <= #[trigger] self.line@[i] < tree.node_count()
                &&& tree.path_of(was[from(i)]).is_prefix_of(tree.path_of(self.line@[i]))
                &&& from(i) != at ==> self.line@[i] == was[from(i)]
                &&& from(i) == at ==> tree.path_of(self.line@[i]).len() == here.len() + 1
                    && tree.path_of(self.line@[i]).drop_last() == here && self.line@[i] == first
                    + (i - at)
            } by {
                assert(under(tree, self.start as int, was[from(i)]));
                if from(i) == at {
                    let k = i - at;
                    assert(self.line@[i] == kids[k]);
                    let q = if k == 0 {
                        q0
                    } else if k == 1 {
                        q1
                    } else if k == 2 {
                        q2
                    } else {
                        q3
                    };
                    assert(tree.path_of(first + k) == here.push(q));
                    assert(here.push(q).drop_last() =~= here);
                    assert(here.is_prefix_of(here.push(q)));
                } else {
                    let p = tree.path_of(was[from(i)]);
                    assert(p.is_prefix_of(p));
                }
            }
            assert forall|i: int| 0 <= i < self.line@.len() implies under(
                tree,
                self.start as int,
                #[trigger] self.line@[i],
            ) by {
                assert(under(tree, self.start as int, was[from(i)]));
                lemma_prefix_chain(top, tree.path_of(was[from(i)]), tree.path_of(self.line@[i]));
            }
            assert forall|i: int, j: int|
                0 <= i < self.line@.len() && 0 <= j < self.line@.len() && i != j implies #[trigger] self.apart(
                tree,
                i,
                j,
            ) by {
                let a = tree.path_of(self.line@[i]);
                let b = tree.path_of(self.line@[j]);
                if a.is_prefix_of(b) {
                    let sa = tree.path_of(was[from(i)]);
                    let sb = tree.path_of(was[from(j)]);
                    if from(i) == at && from(j) == at {
                        assert(a =~= b);
                        tree.lemma_one_node_per_path(self.line@[i], self.line@[j]);
                    } else if from(i) == at {
                        lemma_prefix_chain(here, a, b);
                        assert(old(self).apart(tree, at, from(j)));
                    } else if from(j) == at {
                        assert(b =~= here.push(b.last()));
                        lemma_prefix_of_longer(a, here, b.last());
                        assert(old(self).apart(tree, from(i), at));
                        if a == b {
                            assert(here.is_prefix_of(a));
                            assert(old(self).apart(tree, at, from(i)));
                        }
                    } else {
                        assert(old(self).apart(tree, from(i), from(j)));
                    }
                }
            }
            assert forall|leaf: int|
                under(tree, self.start as int, leaf) && !(tree.slot(leaf) is Internal) implies #[trigger] self.covered(
                tree,
                leaf,
            ) by {
                assert(old(self).covered(tree, leaf));
                let i = choose|i: int|
                    0 <= i < was.len() && #[trigger] old(self).covers_at(tree, i, leaf);
                if i < at {
                    assert(self.line@[i] == was[i]);
                    assert(self.covers_at(tree, i, leaf));
                } else if i > at {
                    assert(self.line@[i + 3] == was[i]);
                    assert(self.covers_at(tree, i + 3, leaf));
                } else {
                    tree.lemma_child_on_path(node, leaf);
                    let q = tree.path_of(leaf)[here.len() as int];
                    tree.lemma_children(node, q);
                    let k = index_of(q);
                    assert(self.line@[at + k] == kids[k]);
                    assert(self.covers_at(tree, at + k, leaf));
                }
            }
            assert forall|o: int, i: int|
                self.opened@.contains(o) && 0 <= i < self.line@.len() implies !#[trigger] self.covers_at(
                tree,
                i,
                o,
            ) by {
                let a = tree.path_of(self.line@[i]);
                if a.is_prefix_of(tree.path_of(o)) {
                    if o == node {
                        if from(i) != at {
                            assert(old(self).apart(tree, from(i), at));
                        }
                    } else {
                        lemma_prefix_chain(tree.path_of(was[from(i)]), a, tree.path_of(o));
                        assert(old(self).covers_at(tree, from(i), o));
                    }
                }
            }
            assert forall|k: int| 0 <= k < self.stack@.len() implies #[trigger] self.stack@[k]
                == self.line@[self.line@.len() - 1 - k] by {
                if k < old(self).stack@.len() {
                    assert(self.stack@[k] == old(self).stack@[k]);
                    assert(old(self).stack@[k] == was[was.len() - 1 - k]);
                }
            }
        }
    }

    /// Whether opening does anything at this point of the walk: a node was
    /// visited, it has not been opened since, and it is a divided square.
    pub open spec fn opens(&self, tree: &QuadTree) -> bool {
        self.current() matches Some(node) && tree.slot(node) is Internal
    }

    /// Whether every node of the frontier has been visited.
    pub fn is_done(&self) -> (done: bool)
        ensures
            done == (self.pending() == 0),
    {
        self.stack.len() == 0
    }

    /// The number of nodes that are still to be visited.
    pub closed spec fn pending(&self) -> nat {
        self.stack@.len()
    }

    /// The frontier lies under the origin.
    pub proof fn lemma_frontier_is_under_origin(&self, tree: &QuadTree, i: int)
        requires
            self.wf(tree),
            0 <= i < self.frontier().len(),
        ensures
            under(tree, self.origin(), self.frontier()[i]),
            0 <= self.visited() <= self.frontier().len(),
            self.pending() == self.frontier().len() - self.visited(),
    {
    }

    /// No node of the frontier lies under another, so no leaf is taken
    /// twice.
    pub proof fn lemma_frontier_is_apart(&self, tree: &QuadTree, i: int, j: int)
        requires
            self.wf(tree),
            0 <= i < self.frontier().len(),
            0 <= j < self.frontier().len(),
            tree.path_of(self.frontier()[i]).is_prefix_of(tree.path_of(self.frontier()[j])),
        ensures
            i == j,
    {
        if i != j {
            assert(self.apart(tree, i, j));
        }
    }

    /// Every leaf under the origin lies under exactly one node of the
    /// frontier, so no leaf is left out.
    pub proof fn lemma_frontier_covers(&self, tree: &QuadTree, leaf: int) -> (i: int)
        requires
            self.wf(tree),
            under(tree, self.origin(), leaf),
            !(tree.slot(leaf) is Internal),
        ensures
            0 <= i < self.frontier().len(),
            tree.path_of(self.frontier()[i]).is_prefix_of(tree.path_of(leaf)),
            forall|j: int|
                0 <= j < self.frontier().len() && tree.path_of(#[trigger] self.frontier()[j]).is_prefix_of(
                    tree.path_of(leaf),
                ) ==> j == i,
    {
        assert(self.covered(tree, leaf));
        let i = choose|i: int| 0 <= i < self.line@.len() && #[trigger] self.covers_at(tree, i, leaf);
        assert forall|j: int|
            0 <= j < self.frontier().len() && tree.path_of(#[trigger] self.frontier()[j]).is_prefix_of(
                tree.path_of(leaf),
            ) implies j == i by {
            let a = tree.path_of(self.line@[i]);
            let b = tree.path_of(self.line@[j]);
            if j != i {
                if a.len() <= b.len() {
                    lemma_prefixes_of_one(a, b, tree.path_of(leaf));
                    assert(self.apart(tree, i, j));
                } else {
                    lemma_prefixes_of_one(b, a, tree.path_of(leaf));
                    assert(self.apart(tree, j, i));
                }
            }
        }
        i
    }

    /// A square that was opened is never visited again, nor is any square
    /// that contains it.
    pub proof fn lemma_opened_is_gone(&self, tree: &QuadTree, node: int, i: int)
        requires
            self.wf(tree),
            self.opened().contains(node),
            0 <= i < self.frontier().len(),
        ensures
            !tree.path_of(self.frontier()[i]).is_prefix_of(tree.path_of(node)),
            self.frontier()[i] != node,
    {
        assert(!self.covers_at(tree, i, node));
        if self.frontier()[i] == node {
            let p = tree.path_of(node);
            assert(p.is_prefix_of(p));
        }
    }
}

} // verus!
