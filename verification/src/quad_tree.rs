//! The quadtree as an index: which node holds which body, and where a body
//! goes when it is inserted.
//!
//! A node's square is known here by its position in the tree alone: the
//! sequence of quadrants that leads to it from the root. A body is known by
//! the bits of its point and by the quadrants that lead from the root to the
//! smallest square around it, one for each level down to the level at which
//! squares are no longer divided.

use crate::geometry::PointKey;
use vstd::prelude::*;

verus! {

/// One of the four equal parts of a square: whether it lies on the high side
/// of the square's midpoint, along each axis.
#[derive(Clone, Copy, PartialEq, Eq, Structural, Debug)]
pub struct Quadrant {
    pub high_x: bool,
    pub high_y: bool,
}

/// A point together with the quadrants that lead to it from the root.
#[derive(Debug)]
pub struct Site {
    pub point: PointKey,
    pub path: Vec<Quadrant>,
}

/// What a node is, in terms of what it holds.
pub enum Slot {
    /// A leaf with no body.
    Empty,
    /// A leaf with one body: its point and its path.
    Leaf(PointKey, Seq<Quadrant>),
    /// A divided square; its four children have consecutive handles, of which
    /// this is the first.
    Internal(int),
}

#[derive(Clone, Copy)]
enum Kind {
    Empty,
    Leaf(usize),
    Internal(usize),
}

#[derive(Clone, Copy)]
struct Node {
    kind: Kind,
    parent: usize,
    quadrant: Quadrant,
    depth: usize,
}

/// A quadtree. Nodes are known by handles, which stay valid, and keep their
/// square, for as long as the tree lives.
pub struct QuadTree {
    levels: usize,
    nodes: Vec<Node>,
    sites: Vec<Site>,
    paths: Ghost<Seq<Seq<Quadrant>>>,
    home: Ghost<Map<Seq<Quadrant>, int>>,
}

/// Position of a quadrant among the four children of a node.
pub open spec fn index_of(quadrant: Quadrant) -> int {
    (if quadrant.high_x {
        1int
    } else {
        0int
    }) + (if quadrant.high_y {
        2int
    } else {
        0int
    })
}

spec fn site_index(kind: Kind) -> int {
    match kind {
        Kind::Leaf(s) => s as int,
        _ => 0,
    }
}

impl Quadrant {
    /// Position of this quadrant among the four children of a node.
    pub fn index(self) -> (i: usize)
        ensures
            i == index_of(self),
            i < 4,
    {
        let low: usize = if self.high_x {
            1
        } else {
            0
        };
        if self.high_y {
            low + 2
        } else {
            low
        }
    }
}

impl View for QuadTree {
    type V = Map<Seq<Quadrant>, PointKey>;

    /// The bodies in the tree: the point stored for each path that has one.
    closed spec fn view(&self) -> Map<Seq<Quadrant>, PointKey> {
        Map::new(
            |path: Seq<Quadrant>| self.home@.dom().contains(path),
            |path: Seq<Quadrant>|
                self.sites@[site_index(self.nodes@[self.home@[path]].kind)].point,
        )
    }
}

impl QuadTree {
    /// The depth at which squares are no longer divided, which is also the
    /// length of every body's path.
    pub closed spec fn floor(&self) -> nat {
        self.levels as nat
    }

    /// The number of nodes; handles are the numbers below it.
    pub closed spec fn node_count(&self) -> nat {
        self.nodes@.len()
    }

    /// The quadrants that lead from the root to the node.
    pub closed spec fn path_of(&self, id: int) -> Seq<Quadrant> {
        self.paths@[id]
    }

    /// What the node holds.
    pub closed spec fn slot(&self, id: int) -> Slot {
        match self.nodes@[id].kind {
            Kind::Empty => Slot::Empty,
            Kind::Leaf(s) => Slot::Leaf(self.sites@[s as int].point, self.sites@[s as int].path@),
            Kind::Internal(c) => Slot::Internal(c as int),
        }
    }

    /// Whether `id` is a node whose square contains the smallest square
    /// around `path`.
    pub open spec fn is_on(&self, id: int, path: Seq<Quadrant>) -> bool {
        0 <= id < self.node_count() && self.path_of(id).is_prefix_of(path)
    }

    /// Whether `id` is the leaf whose square contains the smallest square
    /// around `path`.
    pub open spec fn leaf_for(&self, id: int, path: Seq<Quadrant>) -> bool {
        self.is_on(id, path) && !(self.slot(id) is Internal)
    }

    spec fn child_ok(&self, j: int) -> bool {
        let node = self.nodes@[j];
        let p = node.parent as int;
        &&& 0 <= p < j
        &&& self.nodes@[p].kind is Internal
        &&& self.nodes@[p].kind->Internal_0 + index_of(node.quadrant) == j
        &&& self.paths@[j] == self.paths@[p].push(node.quadrant)
    }

    spec fn leaf_ok(&self, j: int, s: int) -> bool {
        &&& 0 <= s < self.sites@.len()
        &&& self.sites@[s].path@.len() == self.levels
        &&& self.paths@[j].is_prefix_of(self.sites@[s].path@)
        &&& self.home@.dom().contains(self.sites@[s].path@)
        &&& self.home@[self.sites@[s].path@] == j
    }

    spec fn internal_ok(&self, j: int, c: int) -> bool {
        &&& self.nodes@[j].depth < self.levels
        &&& j < c
        &&& c + 3 < self.nodes@.len()
        &&& forall|q: int|
            0 <= q < 4 ==> (#[trigger] self.nodes@[c + q]).parent == j && index_of(
                self.nodes@[c + q].quadrant,
            ) == q
    }

    spec fn node_ok(&self, j: int) -> bool {
        let node = self.nodes@[j];
        &&& node.depth == self.paths@[j].len()
        &&& node.depth <= self.levels
        &&& j > 0 ==> self.child_ok(j)
        &&& match node.kind {
            Kind::Empty => true,
            Kind::Leaf(s) => self.leaf_ok(j, s as int),
            Kind::Internal(c) => self.internal_ok(j, c as int),
        }
    }

    spec fn home_ok(&self, path: Seq<Quadrant>) -> bool {
        let j = self.home@[path];
        &&& 0 <= j < self.nodes@.len()
        &&& self.nodes@[j].kind is Leaf
        &&& 0 <= site_index(self.nodes@[j].kind) < self.sites@.len()
        &&& self.sites@[site_index(self.nodes@[j].kind)].path@ == path
    }

    /// The tree's invariant. The root is node 0. A node's depth is the length
    /// of its path, and never exceeds the floor. Every other node is one of
    /// the four children of an internal node above the floor, reached from it
    /// by the node's own quadrant. A body sits in a leaf whose square contains
    /// it, and no two leaves hold bodies of one path.
    pub closed spec fn wf(&self) -> bool {
        &&& self.nodes@.len() >= 1
        &&& self.paths@.len() == self.nodes@.len()
        &&& self.paths@[0].len() == 0
        &&& forall|j: int| 0 <= j < self.nodes@.len() ==> #[trigger] self.node_ok(j)
        &&& forall|path: Seq<Quadrant>|
            self.home@.dom().contains(path) ==> #[trigger] self.home_ok(path)
    }

    /// What an insertion of the body `(point, path)` makes of the tree `self`:
    /// the tree `post` and the handle `leaf`.
    ///
    /// The body is stored, in place of the body of the same path if there was
    /// one, and all other bodies stay. The handle is that of the leaf around
    /// the body, which now holds it. Old handles keep their squares and
    /// divided squares stay divided. Where the leaf that was around the body
    /// was empty, the body takes it and no node is made. Where that leaf held
    /// another body, the leaf is divided, level by level, until the two part
    /// ways or the floor is reached, and no further; at the floor the new
    /// body takes the place of the old.
    pub open spec fn inserted(
        &self,
        point: PointKey,
        path: Seq<Quadrant>,
        post: &QuadTree,
        leaf: int,
    ) -> bool {
        &&& post.wf()
        &&& post.floor() == self.floor()
        &&& post@ == self@.insert(path, point)
        &&& post.leaf_for(leaf, path)
        &&& post.slot(leaf) == Slot::Leaf(point, path)
        &&& post.node_count() >= self.node_count()
        &&& forall|id: int|
            0 <= id < self.node_count() ==> #[trigger] post.path_of(id) == self.path_of(id)
        &&& forall|id: int|
            0 <= id < self.node_count() && #[trigger] self.slot(id) is Internal ==> post.slot(id)
                == self.slot(id)
        &&& forall|was: int| #[trigger]
            self.leaf_for(was, path) ==> self.landed(was, path, post, leaf)
    }

    /// How far the tree was divided by an insertion on `path` that found the
    /// leaf `was` around it and ended in the leaf `leaf` of `post`.
    pub open spec fn landed(&self, was: int, path: Seq<Quadrant>, post: &QuadTree, leaf: int) -> bool {
        let depth = post.path_of(leaf).len() as int;
        let start = self.path_of(was).len() as int;
        &&& post.node_count() == self.node_count() + 4 * (depth - start)
        &&& depth == start ==> leaf == was
        &&& match self.slot(was) {
            Slot::Empty => depth == start,
            Slot::Leaf(_, other) => if other == path {
                depth == self.floor()
            } else {
                depth > start && other.take(depth - 1) == path.take(depth - 1) && other[depth
                    - 1] != path[depth - 1]
            },
            Slot::Internal(_) => true,
        }
    }

    /// A tree of one empty leaf, the root, whose squares are divided down to
    /// depth `levels`.
    pub fn new(levels: usize) -> (tree: QuadTree)
        ensures
            tree.wf(),
            tree.floor() == levels,
            tree.node_count() == 1,
            tree.slot(0) == Slot::Empty,
            tree.path_of(0) == Seq::<Quadrant>::empty(),
            tree@ == Map::<Seq<Quadrant>, PointKey>::empty(),
    {
        let mut nodes: Vec<Node> = Vec::new();
        nodes.push(
            Node {
                kind: Kind::Empty,
                parent: 0,
                quadrant: Quadrant { high_x: false, high_y: false },
                depth: 0,
            },
        );
        let paths: Ghost<Seq<Seq<Quadrant>>> = Ghost(
            Seq::<Seq<Quadrant>>::empty().push(Seq::<Quadrant>::empty()),
        );
        let home: Ghost<Map<Seq<Quadrant>, int>> = Ghost(Map::empty());
        let tree = QuadTree { levels, nodes, sites: Vec::new(), paths, home };
        assert(tree.node_ok(0));
        assert(tree@ =~= Map::<Seq<Quadrant>, PointKey>::empty());
        tree
    }

    /// The handle of the root.
    pub fn root(&self) -> (id: usize)
        ensures
            id == 0,
    {
        0
    }

    /// The depth at which squares are no longer divided.
    pub fn levels(&self) -> (levels: usize)
        ensures
            levels == self.floor(),
    {
        self.levels
    }

    /// The number of nodes.
    pub fn len(&self) -> (count: usize)
        ensures
            count == self.node_count(),
    {
        self.nodes.len()
    }

    /// No two nodes have the same square.
    proof fn lemma_paths_differ(&self, a: int, b: int)
        requires
            self.wf(),
            0 <= a < self.nodes@.len(),
            0 <= b < self.nodes@.len(),
            self.paths@[a] == self.paths@[b],
        ensures
            a == b,
        decreases self.paths@[a].len(),
    {
        assert(self.node_ok(a));
        assert(self.node_ok(b));
        if a != 0 && b != 0 {
            let pa = self.nodes@[a].parent as int;
            let pb = self.nodes@[b].parent as int;
            let qa = self.nodes@[a].quadrant;
            let qb = self.nodes@[b].quadrant;
            assert(self.paths@[pa].push(qa).drop_last() =~= self.paths@[pa]);
            assert(self.paths@[pb].push(qb).drop_last() =~= self.paths@[pb]);
            assert(self.paths@[pa].push(qa).last() == qa);
            assert(self.paths@[pb].push(qb).last() == qb);
            self.lemma_paths_differ(pa, pb);
        }
    }

    /// Above every node, at each lesser depth, lies a divided square.
    proof fn lemma_ancestor(&self, j: int, d: int) -> (a: int)
        requires
            self.wf(),
            0 <= j < self.nodes@.len(),
            0 <= d < self.paths@[j].len(),
        ensures
            0 <= a < self.nodes@.len(),
            self.nodes@[a].kind is Internal,
            self.paths@[a] == self.paths@[j].take(d),
        decreases self.paths@[j].len(),
    {
        assert(self.node_ok(j));
        let p = self.nodes@[j].parent as int;
        assert(self.paths@[p].push(self.nodes@[j].quadrant).drop_last() =~= self.paths@[p]);
        assert(self.node_ok(p));
        if d == self.paths@[j].len() - 1 {
            assert(self.paths@[j].take(d) =~= self.paths@[p]);
            p
        } else {
            let a = self.lemma_ancestor(p, d);
            assert(self.paths@[j].take(d) =~= self.paths@[p].take(d));
            a
        }
    }

    /// At most one leaf lies around a path.
    pub proof fn lemma_leaf_unique(&self, a: int, b: int, path: Seq<Quadrant>)
        requires
            self.wf(),
            self.leaf_for(a, path),
            self.leaf_for(b, path),
        ensures
            a == b,
    {
        let la = self.paths@[a].len() as int;
        let lb = self.paths@[b].len() as int;
        if la == lb {
            assert(self.paths@[a] =~= self.paths@[b]);
            self.lemma_paths_differ(a, b);
        } else if la < lb {
            let anc = self.lemma_ancestor(b, la);
            assert(self.paths@[b].take(la) =~= self.paths@[a]);
            self.lemma_paths_differ(anc, a);
        } else {
            let anc = self.lemma_ancestor(a, lb);
            assert(self.paths@[a].take(lb) =~= self.paths@[b]);
            self.lemma_paths_differ(anc, b);
        }
    }

    /// Walks down from `at` along `path` to the leaf around it.
    fn descend(&self, at: usize, path: &Vec<Quadrant>) -> (leaf: usize)
        requires
            self.wf(),
            path@.len() == self.floor(),
            self.is_on(at as int, path@),
        ensures
            self.leaf_for(leaf as int, path@),
    {
        let mut cur: usize = at;
        loop
            invariant
                self.wf(),
                path@.len() == self.floor(),
                self.is_on(cur as int, path@),
            decreases self.levels - self.nodes@[cur as int].depth,
        {
            proof {
                assert(self.node_ok(cur as int));
            }
            let node: Node = self.nodes[cur];
            match node.kind {
                Kind::Internal(first) => {
                    let count: usize = self.nodes.len();
                    assert(first + 3 < count) by {
                        assert(self.internal_ok(cur as int, first as int));
                    }
                    let quadrant: Quadrant = path[node.depth];
                    let offset: usize = quadrant.index();
                    let next: usize = first + offset;
                    proof {
                        assert(self.nodes@[first + index_of(quadrant)].parent == cur);
                        assert(self.node_ok(next as int));
                        assert(self.nodes@[next as int].quadrant == quadrant);
                        assert(self.paths@[cur as int].push(quadrant).is_prefix_of(path@));
                    }
                    cur = next;
                },
                _ => {
                    return cur;
                },
            }
        }
    }

    /// The handle of the leaf whose square contains the smallest square
    /// around `path`.
    pub fn locate(&self, path: &Vec<Quadrant>) -> (leaf: usize)
        requires
            self.wf(),
            path@.len() == self.floor(),
        ensures
            self.leaf_for(leaf as int, path@),
    {
        proof {
            assert(self.paths@[0].is_prefix_of(path@));
        }
        self.descend(0, path)
    }

    /// Whether `id` is a node whose square contains the smallest square
    /// around `path`.
    pub fn covers(&self, id: usize, path: &Vec<Quadrant>) -> (covered: bool)
        requires
            self.wf(),
        ensures
            covered == self.is_on(id as int, path@),
    {
        if id >= self.nodes.len() {
            return false;
        }
        proof {
            assert(self.node_ok(id as int));
        }
        if self.nodes[id].depth > path.len() {
            return false;
        }
        let mut cur: usize = id;
        loop
            invariant
                self.wf(),
                cur < self.nodes@.len(),
                id < self.nodes@.len(),
                self.nodes@[cur as int].depth <= path@.len(),
                self.paths@[id as int].is_prefix_of(path@) == self.paths@[cur as int].is_prefix_of(
                    path@,
                ),
            decreases self.nodes@[cur as int].depth,
        {
            proof {
                assert(self.node_ok(cur as int));
            }
            if cur == 0 {
                return true;
            }
            let node: Node = self.nodes[cur];
            let quadrant: Quadrant = path[node.depth - 1];
            proof {
                let up = self.paths@[node.parent as int];
                assert(self.node_ok(node.parent as int));
                assert(up.push(node.quadrant).is_prefix_of(path@) == (up.is_prefix_of(path@)
                    && path@[node.depth - 1] == node.quadrant)) by {
                    if up.is_prefix_of(path@) && path@[node.depth - 1] == node.quadrant {
                        assert(up.push(node.quadrant) =~= path@.subrange(0, node.depth as int));
                    }
                    if up.push(node.quadrant).is_prefix_of(path@) {
                        assert(up.push(node.quadrant)[node.depth - 1] == path@.subrange(
                            0,
                            node.depth as int,
                        )[node.depth - 1]);
                        assert(up =~= path@.subrange(0, node.depth - 1)) by {
                            assert forall|i: int| 0 <= i < node.depth - 1 implies up[i]
                                == path@.subrange(0, node.depth - 1)[i] by {
                                assert(up.push(node.quadrant)[i] == path@.subrange(
                                    0,
                                    node.depth as int,
                                )[i]);
                            }
                        }
                    }
                }
            }
            if quadrant.high_x != node.quadrant.high_x || quadrant.high_y != node.quadrant.high_y {
                return false;
            }
            cur = node.parent;
        }
    }

    /// Divides the leaf `cur`, which holds the body `held`: four children are
    /// made and the body moves to the one around it.
    fn split(&mut self, cur: usize, held: usize) -> (first: usize)
        requires
            old(self).wf(),
            cur < old(self).nodes@.len(),
            old(self).nodes@[cur as int].kind == Kind::Leaf(held),
            old(self).nodes@[cur as int].depth < old(self).levels,
        ensures
            final(self).wf(),
            final(self).levels == old(self).levels,
            final(self).sites@ == old(self).sites@,
            final(self)@ == old(self)@,
            first == old(self).nodes@.len(),
            final(self).nodes@.len() == first + 4,
            final(self).paths@.take(first as int) == old(self).paths@,
            forall|j: int|
                0 <= j < first && j != cur ==> #[trigger] final(self).nodes@[j] == old(
                    self,
                ).nodes@[j],
            final(self).nodes@[cur as int].kind == Kind::Internal(first),
            final(self).nodes@[cur as int].depth == old(self).nodes@[cur as int].depth,
            forall|k: int|
                0 <= k < 4 ==> (#[trigger] final(self).nodes@[first + k]).kind == (if k == index_of(
                    old(self).sites@[held as int].path@[old(self).nodes@[cur as int].depth as int],
                ) {
                    Kind::Leaf(held)
                } else {
                    Kind::Empty
                }),
    {
        proof {
            assert(self.node_ok(cur as int));
        }
        let node: Node = self.nodes[cur];
        let first: usize = self.nodes.len();
        let depth: usize = node.depth + 1;
        let target: usize = self.sites[held].path[node.depth].index();
        let ghost up = self.paths@[cur as int];
        let ghost held_path = self.sites@[held as int].path@;
        let q0 = Quadrant { high_x: false, high_y: false };
        let q1 = Quadrant { high_x: true, high_y: false };
        let q2 = Quadrant { high_x: false, high_y: true };
        let q3 = Quadrant { high_x: true, high_y: true };
        let k0: Kind = if target == 0 {
            Kind::Leaf(held)
        } else {
            Kind::Empty
        };
        let k1: Kind = if target == 1 {
            Kind::Leaf(held)
        } else {
            Kind::Empty
        };
        let k2: Kind = if target == 2 {
            Kind::Leaf(held)
        } else {
            Kind::Empty
        };
        let k3: Kind = if target == 3 {
            Kind::Leaf(held)
        } else {
            Kind::Empty
        };
        self.nodes.push(Node { kind: k0, parent: cur, quadrant: q0, depth });
        self.nodes.push(Node { kind: k1, parent: cur, quadrant: q1, depth });
        self.nodes.push(Node { kind: k2, parent: cur, quadrant: q2, depth });
        self.nodes.push(Node { kind: k3, parent: cur, quadrant: q3, depth });
        self.nodes.set(
            cur,
            Node {
                kind: Kind::Internal(first),
                parent: node.parent,
                quadrant: node.quadrant,
                depth: node.depth,
            },
        );
        proof {
            self.paths@ = self.paths@.push(up.push(q0)).push(up.push(q1)).push(up.push(q2)).push(
                up.push(q3),
            );
            self.home@ = self.home@.insert(held_path, first + target);
            let moved = held_path[node.depth as int];
            assert(up.push(moved).is_prefix_of(held_path)) by {
                assert(up.push(moved) =~= held_path.subrange(0, node.depth + 1));
            }
            assert(self.paths@.take(first as int) =~= old(self).paths@);
            assert forall|j: int| 0 <= j < self.nodes@.len() implies #[trigger] self.node_ok(
                j,
            ) by {
                if j < first {
                    assert(old(self).node_ok(j));
                    if j != cur {
                        match old(self).nodes@[j].kind {
                            Kind::Empty => {},
                            Kind::Leaf(other) => {
                                assert(old(self).leaf_ok(j, other as int));
                                assert(self.leaf_ok(j, other as int));
                            },
                            Kind::Internal(c) => {
                                assert(old(self).internal_ok(j, c as int));
                                assert forall|q: int| 0 <= q < 4 implies (
                                #[trigger] self.nodes@[c + q]).parent == j && index_of(
                                    self.nodes@[c + q].quadrant,
                                ) == q by {
                                    assert(old(self).nodes@[c + q].parent == j);
                                }
                                assert(self.internal_ok(j, c as int));
                            },
                        }
                        if j > 0 {
                            assert(self.child_ok(j));
                        }
                    } else {
                        assert forall|q: int| 0 <= q < 4 implies (#[trigger] self.nodes@[first
                            + q]).parent == j && index_of(self.nodes@[first + q].quadrant) == q by {
                            if q == 0 {
                            } else if q == 1 {
                            } else if q == 2 {
                            } else {
                            }
                        }
                        assert(self.internal_ok(j, first as int));
                        if j > 0 {
                            assert(self.child_ok(j));
                        }
                    }
                } else {
                    assert(self.child_ok(j));
                    if j == first + target {
                        assert(self.nodes@[j].quadrant == moved);
                        assert(self.leaf_ok(j, held as int));
                    }
                }
            }
            assert forall|path: Seq<Quadrant>|
                self.home@.dom().contains(path) implies #[trigger] self.home_ok(path) by {
                if path != held_path {
                    assert(old(self).home_ok(path));
                }
            }
            assert(self@ =~= old(self)@) by {
                assert forall|path: Seq<Quadrant>| self@.dom().contains(path) implies self@[path]
                    == old(self)@[path] by {
                    if path != held_path {
                        assert(old(self).home_ok(path));
                    }
                }
            }
        }
        first
    }

    /// Puts the body into the leaf `cur`, which is empty or lies at the floor.
    fn settle(&mut self, cur: usize, site: Site)
        requires
            old(self).wf(),
            old(self).leaf_for(cur as int, site.path@),
            site.path@.len() == old(self).levels,
            old(self).nodes@[cur as int].kind is Leaf ==> old(self).nodes@[cur as int].depth == old(
                self,
            ).levels,
        ensures
            final(self).wf(),
            final(self).levels == old(self).levels,
            final(self)@ == old(self)@.insert(site.path@, site.point),
            final(self).paths@ == old(self).paths@,
            final(self).nodes@.len() == old(self).nodes@.len(),
            forall|j: int|
                0 <= j < old(self).nodes@.len() && j != cur ==> #[trigger] final(self).nodes@[j]
                    == old(self).nodes@[j] && final(self).slot(j) == old(self).slot(j),
            final(self).slot(cur as int) == Slot::Leaf(site.point, site.path@),
    {
        let index: usize = self.sites.len();
        let node: Node = self.nodes[cur];
        let ghost path = site.path@;
        let ghost point = site.point;
        proof {
            assert(self.node_ok(cur as int));
            if self.home@.dom().contains(path) {
                let j = self.home@[path];
                assert(self.home_ok(path));
                assert(self.node_ok(j));
                assert(self.leaf_ok(j, site_index(self.nodes@[j].kind)));
                self.lemma_leaf_unique(j, cur as int, path);
                assert(self.leaf_ok(cur as int, site_index(self.nodes@[cur as int].kind)));
                assert(self.paths@[cur as int] =~= path);
                assert(self.sites@[site_index(self.nodes@[cur as int].kind)].path@ =~= path);
            }
            if self.nodes@[cur as int].kind is Leaf {
                let held = site_index(self.nodes@[cur as int].kind);
                assert(self.leaf_ok(cur as int, held));
                assert(self.paths@[cur as int] =~= path);
                assert(self.sites@[held].path@ =~= path);
            }
        }
        self.sites.push(site);
        self.nodes.set(
            cur,
            Node {
                kind: Kind::Leaf(index),
                parent: node.parent,
                quadrant: node.quadrant,
                depth: node.depth,
            },
        );
        proof {
            self.home@ = self.home@.insert(path, cur as int);
            assert forall|j: int| 0 <= j < self.nodes@.len() implies #[trigger] self.node_ok(
                j,
            ) by {
                assert(old(self).node_ok(j));
                if j != cur {
                    match old(self).nodes@[j].kind {
                        Kind::Empty => {},
                        Kind::Leaf(other) => {
                            assert(old(self).leaf_ok(j, other as int));
                            assert(self.sites@[other as int] == old(self).sites@[other as int]);
                            if old(self).sites@[other as int].path@ == path {
                                assert(old(self).home@[path] == j);
                            }
                            assert(self.leaf_ok(j, other as int));
                        },
                        Kind::Internal(c) => {
                            assert(old(self).internal_ok(j, c as int));
                            assert forall|q: int| 0 <= q < 4 implies (#[trigger] self.nodes@[c
                                + q]).parent == j && index_of(self.nodes@[c + q].quadrant) == q by {
                                assert(old(self).nodes@[c + q].parent == j);
                            }
                            assert(self.internal_ok(j, c as int));
                        },
                    }
                    if j > 0 {
                        assert(old(self).child_ok(j));
                        assert(self.child_ok(j));
                    }
                } else {
                    assert(self.leaf_ok(j, index as int));
                    if j > 0 {
                        assert(old(self).child_ok(j));
                        assert(self.child_ok(j));
                    }
                }
            }
            assert forall|other: Seq<Quadrant>|
                self.home@.dom().contains(other) implies #[trigger] self.home_ok(other) by {
                if other != path {
                    assert(old(self).home_ok(other));
                    let j = old(self).home@[other];
                    assert(self.sites@[site_index(old(self).nodes@[j].kind)] == old(
                        self,
                    ).sites@[site_index(old(self).nodes@[j].kind)]);
                }
            }
            assert(self@ =~= old(self)@.insert(path, point)) by {
                assert forall|other: Seq<Quadrant>|
                    self@.dom().contains(other) && other != path implies self@[other] == old(
                    self,
                )@[other] by {
                    assert(old(self).home_ok(other));
                    let j = old(self).home@[other];
                    assert(self.sites@[site_index(old(self).nodes@[j].kind)] == old(
                        self,
                    ).sites@[site_index(old(self).nodes@[j].kind)]);
                }
            }
            assert forall|j: int| 0 <= j < old(self).nodes@.len() && j != cur implies self.slot(j)
                == old(self).slot(j) by {
                assert(old(self).node_ok(j));
                match old(self).nodes@[j].kind {
                    Kind::Leaf(other) => {
                        assert(old(self).leaf_ok(j, other as int));
                        assert(self.sites@[other as int] == old(self).sites@[other as int]);
                    },
                    _ => {},
                }
            }
        }
    }

    /// Inserts the body `site`, starting at the node `at`, and returns the
    /// handle of the leaf that holds it afterwards.
    ///
    /// The walk goes down from `at` to the leaf around the body. An empty leaf
    /// takes the body. A leaf at the floor takes it in place of the body it
    /// held. Any other occupied leaf is divided; the body it held moves to the
    /// child around it, and the walk goes on from the child around the new
    /// body.
    pub fn insert(&mut self, at: usize, site: Site) -> (leaf: usize)
        requires
            old(self).wf(),
            site.path@.len() == old(self).floor(),
            old(self).is_on(at as int, site.path@),
        ensures
            old(self).inserted(site.point, site.path@, final(self), leaf as int),
    {
        let found: usize = self.descend(at, &site.path);
        let ghost path = site.path@;
        let ghost before = old(self).nodes@.len() as int;
        let ghost start = old(self).nodes@[found as int].depth as int;
        let ghost other = old(self).sites@[site_index(old(self).nodes@[found as int].kind)].path@;
        let mut cur: usize = found;
        proof {
            assert(self.paths@.take(before) =~= self.paths@);
        }
        loop
            invariant
                self.wf(),
                old(self).wf(),
                self.levels == old(self).levels,
                path == site.path@,
                path.len() == self.levels,
                self.leaf_for(cur as int, path),
                old(self).leaf_for(found as int, path),
                before == old(self).nodes@.len(),
                start == old(self).nodes@[found as int].depth,
                other == old(self).sites@[site_index(old(self).nodes@[found as int].kind)].path@,
                self@ == old(self)@,
                self.sites@ == old(self).sites@,
                self.paths@.take(before) == old(self).paths@,
                self.nodes@.len() == before + 4 * (self.nodes@[cur as int].depth - start),
                forall|j: int|
                    0 <= j < before && old(self).nodes@[j].kind is Internal
                        ==> #[trigger] self.nodes@[j] == old(self).nodes@[j],
                cur == found ==> self.nodes@ == old(self).nodes@,
                cur != found ==> {
                    let depth = self.nodes@[cur as int].depth as int;
                    &&& depth > start
                    &&& old(self).nodes@[found as int].kind is Leaf
                    &&& other.take(depth - 1) == path.take(depth - 1)
                    &&& match self.nodes@[cur as int].kind {
                        Kind::Empty => other[depth - 1] != path[depth - 1],
                        Kind::Leaf(held) => self.sites@[held as int].path@ == other,
                        Kind::Internal(_) => false,
                    }
                },
            decreases self.levels - self.nodes@[cur as int].depth,
        {
            proof {
                assert(self.node_ok(cur as int));
                assert(old(self).node_ok(found as int));
            }
            let node: Node = self.nodes[cur];
            let divide: Option<usize> = match node.kind {
                Kind::Leaf(held) => if node.depth < self.levels {
                    Some(held)
                } else {
                    None
                },
                _ => None,
            };
            match divide {
                Some(held) => {
                    let ghost mid = *self;
                    proof {
                        assert(self.leaf_ok(cur as int, held as int));
                        assert(self.sites@[held as int].path@ == other);
                        assert(other.take(node.depth as int) =~= self.paths@[cur as int]);
                        assert(path.take(node.depth as int) =~= self.paths@[cur as int]);
                    }
                    let first: usize = self.split(cur, held);
                    let count: usize = self.nodes.len();
                    let quadrant: Quadrant = site.path[node.depth];
                    let offset: usize = quadrant.index();
                    assert(first + 4 == count);
                    let next: usize = first + offset;
                    proof {
                        assert(self.node_ok(cur as int));
                        assert(self.internal_ok(cur as int, first as int));
                        assert(self.nodes@[first + index_of(quadrant)].parent == cur);
                        assert(self.node_ok(next as int));
                        assert(self.child_ok(next as int));
                        assert(self.nodes@[next as int].quadrant == quadrant);
                        assert(self.paths@[cur as int] == mid.paths@[cur as int]) by {
                            assert(self.paths@.take(first as int)[cur as int] == mid.paths@[cur as int]);
                        }
                        assert(self.paths@[cur as int].push(quadrant).is_prefix_of(path)) by {
                            assert(self.paths@[cur as int].push(quadrant) =~= path.subrange(
                                0,
                                node.depth + 1,
                            ));
                        }
                        assert(self.paths@.take(before) =~= old(self).paths@) by {
                            assert(self.paths@.take(first as int).take(before) =~= self.paths@.take(
                                before,
                            ));
                        }
                        assert forall|j: int|
                            0 <= j < before && old(self).nodes@[j].kind is Internal implies #[trigger] self.nodes@[j]
                                == old(self).nodes@[j] by {
                            assert(mid.nodes@[j] == old(self).nodes@[j]);
                        }
                        assert(self.nodes@[first + index_of(quadrant)].kind == (if index_of(
                            quadrant,
                        ) == index_of(other[node.depth as int]) {
                            Kind::Leaf(held)
                        } else {
                            Kind::Empty
                        }));
                    }
                    cur = next;
                },
                None => {
                    let ghost mid = *self;
                    self.settle(cur, site);
                    proof {
                        assert(self.node_ok(cur as int));
                        assert forall|id: int| 0 <= id < old(self).node_count() implies #[trigger] self.path_of(
                            id,
                        ) == old(self).path_of(id) by {
                            assert(mid.paths@.take(before)[id] == mid.paths@[id]);
                        }
                        assert forall|id: int|
                            0 <= id < old(self).node_count() && #[trigger] old(self).slot(
                                id,
                            ) is Internal implies self.slot(id) == old(self).slot(id) by {
                            assert(mid.nodes@[id] == old(self).nodes@[id]);
                        }
                        assert forall|was: int| #[trigger]
                            old(self).leaf_for(was, path) implies old(self).landed(
                            was,
                            path,
                            self,
                            cur as int,
                        ) by {
                            old(self).lemma_leaf_unique(was, found as int, path);
                            assert(mid.paths@.take(before)[found as int] == mid.paths@[found as int]);
                            if old(self).nodes@[found as int].kind is Leaf {
                                assert(old(self).leaf_ok(
                                    found as int,
                                    site_index(old(self).nodes@[found as int].kind),
                                ));
                            }
                            if mid.nodes@[cur as int].kind is Leaf {
                                let held = site_index(mid.nodes@[cur as int].kind);
                                assert(mid.leaf_ok(cur as int, held));
                                assert(mid.paths@[cur as int] =~= path);
                                assert(mid.sites@[held].path@ =~= path);
                            }
                        }
                    }
                    return cur;
                },
            }
        }
    }

    /// Brings a body back into the tree from the handle it remembers: inserts
    /// `site` starting at `handle` where that node's square contains the body,
    /// and at the root where it does not or where there is no such node.
    pub fn make_ready(&mut self, site: Site, handle: usize) -> (leaf: usize)
        requires
            old(self).wf(),
            site.path@.len() == old(self).floor(),
        ensures
            old(self).inserted(site.point, site.path@, final(self), leaf as int),
    {
        let at: usize = if self.covers(handle, &site.path) {
            handle
        } else {
            0
        };
        proof {
            assert(self.paths@[0].is_prefix_of(site.path@));
        }
        self.insert(at, site)
    }

    /// The depth of the node: the number of times the root's square was
    /// halved to give the node's.
    pub fn depth(&self, id: usize) -> (depth: usize)
        requires
            self.wf(),
            id < self.node_count(),
        ensures
            depth == self.path_of(id as int).len(),
            depth <= self.floor(),
    {
        proof {
            assert(self.node_ok(id as int));
        }
        self.nodes[id].depth
    }

    /// The point of the body in the node, if the node is a leaf that holds
    /// one.
    pub fn point(&self, id: usize) -> (held: Option<PointKey>)
        requires
            self.wf(),
            id < self.node_count(),
        ensures
            held == match self.slot(id as int) {
                Slot::Leaf(point, _) => Some(point),
                _ => None,
            },
    {
        proof {
            assert(self.node_ok(id as int));
        }
        match self.nodes[id].kind {
            Kind::Leaf(held) => {
                assert(self.leaf_ok(id as int, held as int));
                Some(self.sites[held].point)
            },
            _ => None,
        }
    }

    /// The child of the node in the given quadrant, if the node is divided.
    pub fn child(&self, id: usize, quadrant: Quadrant) -> (child: Option<usize>)
        requires
            self.wf(),
            id < self.node_count(),
        ensures
            match self.slot(id as int) {
                Slot::Internal(first) => child == Some((first + index_of(quadrant)) as usize)
                    && first + index_of(quadrant) < self.node_count() && self.path_of(
                    first + index_of(quadrant),
                ) == self.path_of(id as int).push(quadrant),
                _ => child.is_none(),
            },
    {
        proof {
            assert(self.node_ok(id as int));
        }
        match self.nodes[id].kind {
            Kind::Internal(first) => {
                let count: usize = self.nodes.len();
                let offset: usize = quadrant.index();
                proof {
                    assert(self.internal_ok(id as int, first as int));
                    assert(self.nodes@[first + index_of(quadrant)].parent == id);
                    assert(self.node_ok(first + index_of(quadrant)));
                    assert(self.child_ok(first + index_of(quadrant)));
                }
                Some(first + offset)
            },
            _ => None,
        }
    }

    /// A body in a leaf is a body of the tree, and lies in the leaf's square.
    pub proof fn lemma_leaf_is_stored(&self, id: int)
        requires
            self.wf(),
            0 <= id < self.node_count(),
            self.slot(id) is Leaf,
        ensures
            ({
                let path = self.slot(id)->Leaf_1;
                &&& path.len() == self.floor()
                &&& self.leaf_for(id, path)
                &&& self@.dom().contains(path)
                &&& self@[path] == self.slot(id)->Leaf_0
            }),
    {
        assert(self.node_ok(id));
        assert(self.leaf_ok(id, site_index(self.nodes@[id].kind)));
    }

    /// A body of the tree is in a leaf: the one around its path.
    pub proof fn lemma_stored_is_in_leaf(&self, path: Seq<Quadrant>) -> (id: int)
        requires
            self.wf(),
            self@.dom().contains(path),
        ensures
            self.leaf_for(id, path),
            self.slot(id) == Slot::Leaf(self@[path], path),
            path.len() == self.floor(),
    {
        assert(self.home_ok(path));
        let id = self.home@[path];
        assert(self.node_ok(id));
        assert(self.leaf_ok(id, site_index(self.nodes@[id].kind)));
        id
    }

    /// No leaf holds two bodies: the leaves around two bodies of the tree are
    /// two leaves, unless the two bodies have the same path.
    pub proof fn lemma_one_body_per_leaf(&self, a: Seq<Quadrant>, b: Seq<Quadrant>, leaf: int)
        requires
            self.wf(),
            self@.dom().contains(a),
            self@.dom().contains(b),
            self.leaf_for(leaf, a),
            self.leaf_for(leaf, b),
        ensures
            a == b,
    {
        let ia = self.lemma_stored_is_in_leaf(a);
        let ib = self.lemma_stored_is_in_leaf(b);
        self.lemma_leaf_unique(ia, leaf, a);
        self.lemma_leaf_unique(ib, leaf, b);
    }

    /// An insertion takes no body out of the tree but one of the same path as
    /// the new body, and it does that only at the floor.
    pub proof fn lemma_insertion_keeps_bodies(
        &self,
        point: PointKey,
        path: Seq<Quadrant>,
        post: &QuadTree,
        leaf: int,
        other: Seq<Quadrant>,
    )
        requires
            self.wf(),
            self.inserted(point, path, post, leaf),
            self@.dom().contains(other),
        ensures
            post@.dom().contains(other),
            other != path ==> post@[other] == self@[other],
            other == path ==> post.path_of(leaf).len() == post.floor(),
    {
        if other == path {
            let was = self.lemma_stored_is_in_leaf(path);
            assert(self.landed(was, path, post, leaf));
        }
    }

    /// Looking up the leaf around a body that was just inserted gives the
    /// handle that the insertion returned.
    pub proof fn lemma_lookup_finds_inserted(
        &self,
        point: PointKey,
        path: Seq<Quadrant>,
        post: &QuadTree,
        leaf: int,
        found: int,
    )
        requires
            self.inserted(point, path, post, leaf),
            post.leaf_for(found, path),
        ensures
            found == leaf,
    {
        post.lemma_leaf_unique(found, leaf, path);
    }

    /// A handle that an insertion returned stays on its body's path through
    /// whatever insertion comes next, so the body can be brought back into
    /// the tree from it.
    pub proof fn lemma_handle_stays_on_path(
        &self,
        first_path: Seq<Quadrant>,
        handle: int,
        point: PointKey,
        path: Seq<Quadrant>,
        post: &QuadTree,
        leaf: int,
    )
        requires
            self.is_on(handle, first_path),
            self.inserted(point, path, post, leaf),
        ensures
            post.is_on(handle, first_path),
    {
    }

    /// Inserting a body a second time, from the handle that the first
    /// insertion gave, returns that same handle exactly where the first
    /// insertion ended at the floor; the bodies of the tree are the same
    /// either way. The first insertion ends at the floor whenever the tree
    /// already held a body of that path.
    pub proof fn lemma_make_ready_twice(
        &self,
        point: PointKey,
        path: Seq<Quadrant>,
        once: &QuadTree,
        first: int,
        twice: &QuadTree,
        second: int,
    )
        requires
            self.wf(),
            self.inserted(point, path, once, first),
            once.inserted(point, path, twice, second),
        ensures
            twice@ == once@,
            (second == first) <==> once.path_of(first).len() == once.floor(),
            self@.dom().contains(path) ==> second == first,
    {
        assert(twice@ =~= once@);
        assert(once.landed(first, path, twice, second));
        if self@.dom().contains(path) {
            let was = self.lemma_stored_is_in_leaf(path);
            assert(self.landed(was, path, once, first));
        }
        if second == first {
            assert(twice.path_of(first) == once.path_of(first));
        }
    }

    /// The handle of the first of the node's four children, if the node is
    /// divided.
    pub fn first_child(&self, id: usize) -> (first: Option<usize>)
        requires
            self.wf(),
            id < self.node_count(),
        ensures
            match self.slot(id as int) {
                Slot::Internal(child) => first == Some(child as usize) && id < child && child
                    + 3 < self.node_count(),
                _ => first.is_none(),
            },
    {
        proof {
            assert(self.node_ok(id as int));
        }
        match self.nodes[id].kind {
            Kind::Internal(first) => {
                assert(self.internal_ok(id as int, first as int));
                Some(first)
            },
            _ => None,
        }
    }

    /// The root's path is empty, so the root's square contains every other.
    pub proof fn lemma_root_is_on_every_path(&self, path: Seq<Quadrant>)
        requires
            self.wf(),
        ensures
            self.path_of(0).len() == 0,
            self.is_on(0, path),
    {
        assert(self.paths@[0].is_prefix_of(path));
    }

    /// No two nodes have the same path.
    pub proof fn lemma_one_node_per_path(&self, a: int, b: int)
        requires
            self.wf(),
            0 <= a < self.node_count(),
            0 <= b < self.node_count(),
            self.path_of(a) == self.path_of(b),
        ensures
            a == b,
    {
        self.lemma_paths_differ(a, b);
    }

    /// The four children of a divided node are nodes, and the path of each
    /// is the node's path and then the child's quadrant.
    pub proof fn lemma_children(&self, id: int, quadrant: Quadrant)
        requires
            self.wf(),
            0 <= id < self.node_count(),
            self.slot(id) is Internal,
        ensures
            ({
                let child = self.slot(id)->Internal_0 + index_of(quadrant);
                &&& 0 <= child < self.node_count()
                &&& self.path_of(child) == self.path_of(id).push(quadrant)
            }),
    {
        let first = self.slot(id)->Internal_0;
        assert(self.node_ok(id));
        assert(self.internal_ok(id, first));
        assert(self.nodes@[first + index_of(quadrant)].parent == id);
        assert(self.node_ok(first + index_of(quadrant)));
        assert(self.child_ok(first + index_of(quadrant)));
    }

    /// A node whose square contains that of another node is divided, and one
    /// of its children has a square that contains the other node's too.
    pub proof fn lemma_child_on_path(&self, id: int, below: int)
        requires
            self.wf(),
            0 <= id < self.node_count(),
            0 <= below < self.node_count(),
            self.path_of(id).is_prefix_of(self.path_of(below)),
            id != below,
        ensures
            self.slot(id) is Internal,
            self.path_of(id).len() < self.path_of(below).len(),
            self.path_of(id).push(self.path_of(below)[self.path_of(id).len() as int]).is_prefix_of(
                self.path_of(below),
            ),
    {
        let depth = self.paths@[id].len() as int;
        if depth == self.paths@[below].len() {
            assert(self.paths@[id] =~= self.paths@[below]);
            self.lemma_paths_differ(id, below);
        }
        let above = self.lemma_ancestor(below, depth);
        assert(self.paths@[below].take(depth) =~= self.paths@[id]);
        self.lemma_paths_differ(above, id);
        assert(self.paths@[id].push(self.paths@[below][depth]) =~= self.paths@[below].subrange(
            0,
            depth + 1,
        ));
    }
}

} // verus!
