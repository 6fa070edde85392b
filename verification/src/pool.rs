//! The graph pool: nodes, their adjacency relation (geometry) and their link
//! relation (carved passages). The link relation is always a subgraph of the
//! adjacency relation.

use vstd::prelude::*;

use crate::dijkstra::{is_link_dist, lemma_link_dist_same_links, lemma_link_dist_unique, DijkstraPad, Distance, Distances};
use crate::rng::{rand_index, sample_uniform};

verus! {

/// An opaque, stable integer handle to a node, unique for the lifetime of its
/// owning [`Pool`] and meaningful only against the pool that issued it.
#[derive(Debug, PartialEq, Eq, Structural, Clone, Copy, Hash)]
pub struct NodeId(pub usize);

/// A node of a [`Pool`]: its identity, the set of nodes it *could* be
/// connected to (adjacency), the set of nodes it *is* connected to (links),
/// and an arbitrary payload fixed at construction.
#[derive(Debug)]
pub struct Node<T> {
    pub id: NodeId,
    pub links: Vec<NodeId>,
    pub adjacencies: Vec<NodeId>,
    pub payload: T,
}

/// A pool of nodes and connections.
///
/// A pool consists abstractly of two graphs, the link graph and the adjacency
/// graph. The adjacency graph specifies what nodes *might* be connected: it
/// defines the geometry and layout of the graph. The link graph is a subgraph
/// of the adjacency graph; two nodes can be linked only if they are adjacent,
/// so links can be thought of as carved passages.
#[derive(Debug)]
pub struct Pool<T> {
    pub nodes: Vec<Node<T>>,
}

/// The result of searching the frontier of a set of visited nodes.
/// Used by [`Pool::scan_frontier`].
pub enum FrontierSearchResult {
    /// A node outside the visited set, adjacent to one that is, has been found.
    Found {
        /// The node outside the visited set.
        unvisited: NodeId,
        /// The node in the visited set adjacent to the unvisited one.
        visited: NodeId,
    },
    /// There were no unvisited cells adjacent to any in the visited set.
    NoFrontier,
}

impl<T> Pool<T> {
    /// The number of nodes the pool owns.
    pub open spec fn len(self) -> int {
        self.nodes@.len() as int
    }

    /// `id` was issued by this pool.
    pub open spec fn valid(self, id: NodeId) -> bool {
        id.0 < self.nodes@.len()
    }

    /// The node at index `i` is internally consistent: it carries its own
    /// index as id, its adjacency and link vectors behave as sets (no
    /// duplicates), adjacency entries are valid ids, and every link is backed
    /// by an adjacency.
    pub open spec fn node_ok(self, i: int) -> bool {
        &&& self.nodes@[i].id.0 == i
        &&& self.nodes@[i].adjacencies@.no_duplicates()
        &&& self.nodes@[i].links@.no_duplicates()
        &&& forall|k: int| 0 <= k < self.nodes@[i].adjacencies@.len()
            ==> (#[trigger] self.nodes@[i].adjacencies@[k]).0 < self.nodes@.len()
        &&& forall|k: int| 0 <= k < self.nodes@[i].links@.len()
            ==> self.nodes@[i].adjacencies@.contains(#[trigger] self.nodes@[i].links@[k])
    }

    /// Well-formedness of the whole pool.
    pub open spec fn wf(self) -> bool {
        forall|i: int| 0 <= i < self.nodes@.len() ==> self.node_ok(i)
    }

    /// `b` is registered as adjacent to `a`.
    pub open spec fn adjacent(self, a: NodeId, b: NodeId) -> bool {
        self.valid(a) && self.nodes@[a.0 as int].adjacencies@.contains(b)
    }

    /// `b` is registered as linked from `a` (a carved passage).
    pub open spec fn linked(self, a: NodeId, b: NodeId) -> bool {
        self.valid(a) && self.nodes@[a.0 as int].links@.contains(b)
    }

    /// `a` and `b` touch through the adjacency relation in either direction.
    pub open spec fn adj_touches(self, a: NodeId, b: NodeId) -> bool {
        self.adjacent(a, b) || self.adjacent(b, a)
    }

    /// There is a walk of exactly `n` steps from `a` to `b` through the
    /// adjacency relation, ignoring direction.
    pub open spec fn adj_steps(self, a: NodeId, b: NodeId, n: nat) -> bool
        decreases n,
    {
        if n == 0 {
            a == b && self.valid(a)
        } else {
            exists|mid: NodeId|
                self.adj_steps(a, mid, (n - 1) as nat) && self.valid(b)
                && #[trigger] self.adj_touches(mid, b)
        }
    }

    /// `b` can be reached from `a` through adjacencies, ignoring direction.
    pub open spec fn adj_reach(self, a: NodeId, b: NodeId) -> bool {
        exists|n: nat| self.adj_steps(a, b, n)
    }

    /// The adjacency graph is a single connected region.
    pub open spec fn adj_connected(self) -> bool {
        forall|a: NodeId, b: NodeId|
            self.valid(a) && self.valid(b) ==> #[trigger] self.adj_reach(a, b)
    }

    /// There is a walk of exactly `n` carved passages from `a` to `b`,
    /// following stored direction.
    pub open spec fn link_steps(self, a: NodeId, b: NodeId, n: nat) -> bool
        decreases n,
    {
        if n == 0 {
            a == b && self.valid(a)
        } else {
            exists|mid: NodeId|
                self.link_steps(a, mid, (n - 1) as nat) && self.valid(b)
                && #[trigger] self.linked(mid, b)
        }
    }

    /// `b` can be reached from `a` through carved passages.
    pub open spec fn link_reach(self, a: NodeId, b: NodeId) -> bool {
        exists|n: nat| self.link_steps(a, b, n)
    }

    /// Every node can reach every other through carved passages: the maze is
    /// fully generated.
    pub open spec fn link_connected(self) -> bool {
        forall|a: NodeId, b: NodeId|
            self.valid(a) && self.valid(b) ==> #[trigger] self.link_reach(a, b)
    }

    /// The two pools agree on everything except possibly the nodes at
    /// indices `a` and `b`.
    pub open spec fn same_except(self, other: Pool<T>, a: int, b: int) -> bool {
        &&& other.nodes@.len() == self.nodes@.len()
        &&& forall|i: int| 0 <= i < self.nodes@.len() && i != a && i != b
            ==> other.nodes@[i] == self.nodes@[i]
    }
}

/// `node` is `old` with its link vector replaced by `links`.
pub open spec fn with_links<T>(old: Node<T>, node: Node<T>, links: Seq<NodeId>) -> bool {
    &&& node.id == old.id
    &&& node.adjacencies@ == old.adjacencies@
    &&& node.links@ == links
    &&& node.payload == old.payload
}

/// `node` is `old` with its adjacency vector replaced by `adjacencies`.
pub open spec fn with_adjacencies<T>(old: Node<T>, node: Node<T>, adjacencies: Seq<NodeId>) -> bool {
    &&& node.id == old.id
    &&& node.adjacencies@ == adjacencies
    &&& node.links@ == old.links@
    &&& node.payload == old.payload
}

/// `new` holds exactly the members of `old` plus `x`, still without duplicates.
pub open spec fn seq_set_insert(old: Seq<NodeId>, new: Seq<NodeId>, x: NodeId) -> bool {
    &&& new.no_duplicates()
    &&& forall|y: NodeId| #[trigger] new.contains(y) <==> old.contains(y) || y == x
}

/// `new` holds exactly the members of `old` minus `x`, still without duplicates.
pub open spec fn seq_set_remove(old: Seq<NodeId>, new: Seq<NodeId>, x: NodeId) -> bool {
    &&& new.no_duplicates()
    &&& forall|y: NodeId| #[trigger] new.contains(y) <==> old.contains(y) && y != x
}

/// Linear membership test on a vector of node ids.
fn vec_contains(v: &Vec<NodeId>, x: NodeId) -> (r: bool)
    ensures
        r == v@.contains(x),
{
    let mut i: usize = 0;
    while i < v.len()
        invariant
            i <= v@.len(),
            forall|k: int| 0 <= k < i ==> v@[k] != x,
        decreases v@.len() - i,
    {
        if v[i] == x {
            return true;
        }
        i += 1;
    }
    false
}

/// Appends `x` to `v` unless it is already a member, so that `v` keeps
/// behaving as a set.
fn vec_set_insert(v: &mut Vec<NodeId>, x: NodeId)
    requires
        old(v)@.no_duplicates(),
    ensures
        seq_set_insert(old(v)@, final(v)@, x),
        final(v)@.len() == old(v)@.len() + (if old(v)@.contains(x) {
            0int
        } else {
            1int
        }),
{
    if !vec_contains(v, x) {
        v.push(x);
        proof {
            assert forall|m: int, n: int| 0 <= m < n < v@.len() implies v@[m] != v@[n] by {
                if n == v@.len() - 1 {
                    assert(old(v)@[m] == v@[m]);
                    assert(old(v)@.contains(old(v)@[m]));
                }
            }
            assert forall|y: NodeId| #[trigger] v@.contains(y) implies old(v)@.contains(y) || y == x by {
                let k = choose|k: int| 0 <= k < v@.len() && v@[k] == y;
                if k < v@.len() - 1 {
                    assert(old(v)@[k] == y);
                }
            }
            assert forall|y: NodeId| old(v)@.contains(y) || y == x implies #[trigger] v@.contains(y) by {
                if y == x {
                    assert(v@[v@.len() - 1] == x);
                } else {
                    let k = choose|k: int| 0 <= k < old(v)@.len() && old(v)@[k] == y;
                    assert(v@[k] == y);
                }
            }
        }
    }
}

/// Finds the index of the first occurrence of `x` in `v`, if any.
fn vec_index_of(v: &Vec<NodeId>, x: NodeId) -> (r: Option<usize>)
    ensures
        match r {
            Option::Some(i) => i < v@.len() && v@[i as int] == x,
            Option::None => !v@.contains(x),
        },
{
    let mut i: usize = 0;
    while i < v.len()
        invariant
            i <= v@.len(),
            forall|k: int| 0 <= k < i ==> v@[k] != x,
        decreases v@.len() - i,
    {
        if v[i] == x {
            return Option::Some(i);
        }
        i += 1;
    }
    proof {
        if v@.contains(x) {
            let k = choose|k: int| 0 <= k < v@.len() && v@[k] == x;
            assert(false);
        }
    }
    Option::None
}

/// Removes `x` from `v` if it is a member.
fn vec_set_remove(v: &mut Vec<NodeId>, x: NodeId)
    requires
        old(v)@.no_duplicates(),
    ensures
        seq_set_remove(old(v)@, final(v)@, x),
{
    match vec_index_of(v, x) {
        Option::Some(i) => {
            v.remove(i);
            proof {
                assert forall|y: NodeId| #[trigger] v@.contains(y) implies
                    old(v)@.contains(y) && y != x by {
                    let k = choose|k: int| 0 <= k < v@.len() && v@[k] == y;
                    if k < i {
                        assert(old(v)@[k] == y);
                        if y == x {
                            assert(old(v)@[k] == old(v)@[i as int]);
                        }
                    } else {
                        assert(old(v)@[k + 1] == y);
                        if y == x {
                            assert(old(v)@[k + 1] == old(v)@[i as int]);
                        }
                    }
                }
                assert forall|y: NodeId| old(v)@.contains(y) && y != x implies
                    #[trigger] v@.contains(y) by {
                    let k = choose|k: int| 0 <= k < old(v)@.len() && old(v)@[k] == y;
                    if k < i {
                        assert(v@[k] == y);
                    } else {
                        assert(k != i);
                        assert(v@[k - 1] == y);
                    }
                }
                assert forall|m: int, n: int| 0 <= m < n < v@.len()
                    implies v@[m] != v@[n] by {
                    let om: int = if m < i { m } else { m + 1 };
                    let on: int = if n < i { n } else { n + 1 };
                    assert(v@[m] == old(v)@[om]);
                    assert(v@[n] == old(v)@[on]);
                }
            }
        },
        Option::None => {
        },
    }
}

impl<T> Node<T> {
    /// Builds a fresh node with the given id and no connections; the payload
    /// is produced by `construct`, which is handed the node's own id.
    pub fn new<F: FnOnce(NodeId) -> T>(id: NodeId, construct: F) -> (r: Node<T>)
        requires
            call_requires(construct, (id,)),
        ensures
            r.id == id,
            r.links@ == Seq::<NodeId>::empty(),
            r.adjacencies@ == Seq::<NodeId>::empty(),
            call_ensures(construct, (id,), r.payload),
    {
        Node { id, links: Vec::new(), adjacencies: Vec::new(), payload: construct(id) }
    }
}

impl<T> Pool<T> {
    /// An empty pool.
    pub fn new() -> (r: Pool<T>)
        ensures
            r.nodes@.len() == 0,
            r.wf(),
    {
        Pool { nodes: Vec::new() }
    }

    /// All ids the pool has issued, in order of allocation.
    pub fn iter_node_ids(&self) -> (r: Vec<NodeId>)
        ensures
            r@.len() == self.nodes@.len(),
            forall|i: int| 0 <= i < r@.len() ==> (#[trigger] r@[i]).0 == i,
    {
        let mut r: Vec<NodeId> = Vec::new();
        let mut i: usize = 0;
        while i < self.nodes.len()
            invariant
                i <= self.nodes@.len(),
                r@.len() == i,
                forall|k: int| 0 <= k < i ==> (#[trigger] r@[k]).0 == k,
            decreases self.nodes@.len() - i,
        {
            r.push(NodeId(i));
            i += 1;
        }
        r
    }

    /// Returns a node selected uniformly over all nodes in the pool.
    pub fn get_random_node_id(&self, rng: &mut rand::rngs::ThreadRng) -> (r: NodeId)
        requires
            self.wf(),
            self.nodes@.len() > 0,
        ensures
            self.valid(r),
    {
        let i = rand_index(rng, self.nodes.len());
        proof {
            assert(self.node_ok(i as int));
        }
        self.nodes[i].id
    }

    /// Returns an unspecified but valid node in the pool.
    /// It might always be the same node.
    pub fn get_arbitrary_node_id(&self) -> (r: NodeId)
        requires
            self.wf(),
            self.nodes@.len() > 0,
        ensures
            self.valid(r),
            r == self.nodes@[0].id,
    {
        proof {
            assert(self.node_ok(0));
        }
        self.nodes[0].id
    }

    /// Constructs a new node and returns its id.
    ///
    /// The payload of the new node is built by `construct`, which is given
    /// access to the freshly assigned id. No two calls ever return the same id.
    pub fn new_node<F: FnOnce(NodeId) -> T>(&mut self, construct: F) -> (r: NodeId)
        requires
            call_requires(construct, (NodeId(old(self).nodes@.len() as usize),)),
        ensures
            r.0 == old(self).nodes@.len(),
            final(self).nodes@.len() == old(self).nodes@.len() + 1,
            forall|i: int| 0 <= i < old(self).nodes@.len()
                ==> final(self).nodes@[i] == old(self).nodes@[i],
            final(self).nodes@[r.0 as int].id == r,
            final(self).nodes@[r.0 as int].links@ == Seq::<NodeId>::empty(),
            final(self).nodes@[r.0 as int].adjacencies@ == Seq::<NodeId>::empty(),
            call_ensures(construct, (r,), final(self).nodes@[r.0 as int].payload),
            old(self).wf() ==> final(self).wf(),
    {
        let new_id = NodeId(self.nodes.len());
        let node = Node::new(new_id, construct);
        self.nodes.push(node);
        proof {
            if old(self).wf() {
                assert forall|i: int| 0 <= i < self.nodes@.len() implies self.node_ok(i) by {
                    if i < old(self).nodes@.len() {
                        assert(old(self).node_ok(i));
                    }
                }
            }
        }
        new_id
    }

    /// Marks two nodes as adjacent. Only adjacent nodes can then be linked.
    pub fn make_adjacent(&mut self, here: NodeId, there: NodeId, bidirectional: bool)
        requires
            old(self).wf(),
            old(self).valid(here),
            old(self).valid(there),
        ensures
            final(self).wf(),
            old(self).same_except(*final(self), here.0 as int, there.0 as int),
            seq_set_insert(
                old(self).nodes@[here.0 as int].adjacencies@,
                final(self).nodes@[here.0 as int].adjacencies@,
                there,
            ),
            with_adjacencies(
                old(self).nodes@[here.0 as int],
                final(self).nodes@[here.0 as int],
                final(self).nodes@[here.0 as int].adjacencies@,
            ),
            bidirectional && here != there ==> seq_set_insert(
                old(self).nodes@[there.0 as int].adjacencies@,
                final(self).nodes@[there.0 as int].adjacencies@,
                here,
            ) && with_adjacencies(
                old(self).nodes@[there.0 as int],
                final(self).nodes@[there.0 as int],
                final(self).nodes@[there.0 as int].adjacencies@,
            ),
            !bidirectional && here != there
                ==> final(self).nodes@[there.0 as int] == old(self).nodes@[there.0 as int],
            forall|a: NodeId, b: NodeId| old(self).adjacent(a, b) ==> final(self).adjacent(a, b),
            forall|a: NodeId, b: NodeId| old(self).linked(a, b) == final(self).linked(a, b),
            forall|a: NodeId, b: NodeId| #[trigger] final(self).adjacent(a, b)
                ==> old(self).adjacent(a, b)
                    || (a == here && b == there)
                    || (bidirectional && a == there && b == here),
            bidirectional && old(self).adj_symmetric() ==> final(self).adj_symmetric(),
    {
        proof {
            assert(old(self).node_ok(here.0 as int));
            assert(old(self).node_ok(there.0 as int));
        }
        vec_set_insert(&mut self.nodes[here.0].adjacencies, there);
        if bidirectional && here.0 != there.0 {
            vec_set_insert(&mut self.nodes[there.0].adjacencies, here);
        }
        proof {
            if here.0 == there.0 {
                assert(here == there);
            }
            assert forall|i: int| 0 <= i < self.nodes@.len() implies self.node_ok(i) by {
                assert(old(self).node_ok(i));
                assert forall|k: int| 0 <= k < self.nodes@[i].adjacencies@.len()
                    implies (#[trigger] self.nodes@[i].adjacencies@[k]).0 < self.nodes@.len() by {
                    let y = self.nodes@[i].adjacencies@[k];
                    assert(self.nodes@[i].adjacencies@.contains(y));
                    if old(self).nodes@[i].adjacencies@.contains(y) {
                        let j = choose|j: int|
                            0 <= j < old(self).nodes@[i].adjacencies@.len()
                            && old(self).nodes@[i].adjacencies@[j] == y;
                    }
                }
                assert forall|k: int| 0 <= k < self.nodes@[i].links@.len()
                    implies self.nodes@[i].adjacencies@.contains(
                        #[trigger] self.nodes@[i].links@[k]) by {
                    let y = self.nodes@[i].links@[k];
                    assert(old(self).nodes@[i].links@.contains(y));
                    assert(old(self).nodes@[i].adjacencies@.contains(y));
                }
            }
            assert forall|a: NodeId, b: NodeId| old(self).adjacent(a, b)
                implies self.adjacent(a, b) by {
                if a.0 == here.0 || a.0 == there.0 {
                    assert(self.nodes@[a.0 as int].adjacencies@.contains(b));
                }
            }
            if bidirectional && old(self).adj_symmetric() {
                assert forall|a: NodeId, b: NodeId| #[trigger] self.adjacent(a, b)
                    implies self.adjacent(b, a) by {
                    if old(self).adjacent(a, b) {
                        assert(old(self).adjacent(b, a));
                    } else {
                        assert((a == here && b == there) || (a == there && b == here));
                        assert(self.adjacent(here, there) && self.adjacent(there, here));
                    }
                }
            }
        }
    }

    /// Links two adjacent nodes, carving a passage.
    ///
    /// Attempting to link nodes that are not marked adjacent is a contract
    /// violation (the caller's geometry is buggy), so adjacency is required
    /// up front: with the `bidirectional` flag it is required in both
    /// directions.
    pub fn link_cells(&mut self, here: NodeId, there: NodeId, bidirectional: bool)
        requires
            old(self).wf(),
            old(self).adjacent(here, there),
            bidirectional ==> old(self).adjacent(there, here),
        ensures
            final(self).wf(),
            old(self).same_except(*final(self), here.0 as int, there.0 as int),
            seq_set_insert(
                old(self).nodes@[here.0 as int].links@,
                final(self).nodes@[here.0 as int].links@,
                there,
            ),
            with_links(
                old(self).nodes@[here.0 as int],
                final(self).nodes@[here.0 as int],
                final(self).nodes@[here.0 as int].links@,
            ),
            bidirectional && here != there ==> seq_set_insert(
                old(self).nodes@[there.0 as int].links@,
                final(self).nodes@[there.0 as int].links@,
                here,
            ) && with_links(
                old(self).nodes@[there.0 as int],
                final(self).nodes@[there.0 as int],
                final(self).nodes@[there.0 as int].links@,
            ),
            !bidirectional && here != there
                ==> final(self).nodes@[there.0 as int] == old(self).nodes@[there.0 as int],
            forall|a: NodeId, b: NodeId| old(self).adjacent(a, b) == final(self).adjacent(a, b),
            forall|a: NodeId, b: NodeId| old(self).linked(a, b) ==> final(self).linked(a, b),
            forall|a: NodeId, b: NodeId| #[trigger] final(self).linked(a, b)
                ==> old(self).linked(a, b)
                    || (a == here && b == there)
                    || (bidirectional && a == there && b == here),
            final(self).linked(here, there),
            bidirectional ==> final(self).linked(there, here),
            final(self).nodes@[here.0 as int].links@.len()
                == old(self).nodes@[here.0 as int].links@.len()
                    + (if old(self).linked(here, there) {
                        0int
                    } else {
                        1int
                    }),
            bidirectional && here != there
                ==> final(self).nodes@[there.0 as int].links@.len()
                    == old(self).nodes@[there.0 as int].links@.len()
                        + (if old(self).linked(there, here) {
                            0int
                        } else {
                            1int
                        }),
    {
        proof {
            assert(old(self).node_ok(here.0 as int));
            assert(old(self).node_ok(there.0 as int));
        }
        vec_set_insert(&mut self.nodes[here.0].links, there);
        if bidirectional && here.0 != there.0 {
            vec_set_insert(&mut self.nodes[there.0].links, here);
        }
        proof {
            if here.0 == there.0 {
                assert(here == there);
            }
            assert forall|i: int| 0 <= i < self.nodes@.len() implies self.node_ok(i) by {
                assert(old(self).node_ok(i));
                assert forall|k: int| 0 <= k < self.nodes@[i].links@.len()
                    implies self.nodes@[i].adjacencies@.contains(
                        #[trigger] self.nodes@[i].links@[k]) by {
                    let y = self.nodes@[i].links@[k];
                    assert(self.nodes@[i].links@.contains(y));
                    if old(self).nodes@[i].links@.contains(y) {
                        assert(old(self).nodes@[i].adjacencies@.contains(y));
                    }
                }
            }
            assert forall|a: NodeId, b: NodeId| old(self).linked(a, b)
                implies self.linked(a, b) by {
                if a.0 == here.0 || a.0 == there.0 {
                    assert(self.nodes@[a.0 as int].links@.contains(b));
                }
            }
            assert(self.nodes@[here.0 as int].links@.contains(there));
            if bidirectional {
                assert(self.nodes@[there.0 as int].links@.contains(here));
            }
        }
    }

    /// Removes the passage between two nodes, if it was carved.
    pub fn unlink_cells(&mut self, here: NodeId, there: NodeId, bidirectional: bool)
        requires
            old(self).wf(),
            old(self).valid(here),
            old(self).valid(there),
        ensures
            final(self).wf(),
            old(self).same_except(*final(self), here.0 as int, there.0 as int),
            seq_set_remove(
                old(self).nodes@[here.0 as int].links@,
                final(self).nodes@[here.0 as int].links@,
                there,
            ),
            with_links(
                old(self).nodes@[here.0 as int],
                final(self).nodes@[here.0 as int],
                final(self).nodes@[here.0 as int].links@,
            ),
            bidirectional && here != there ==> seq_set_remove(
                old(self).nodes@[there.0 as int].links@,
                final(self).nodes@[there.0 as int].links@,
                here,
            ),
            !bidirectional && here != there
                ==> final(self).nodes@[there.0 as int] == old(self).nodes@[there.0 as int],
            forall|a: NodeId, b: NodeId| old(self).adjacent(a, b) == final(self).adjacent(a, b),
    {
        proof {
            assert(old(self).node_ok(here.0 as int));
            assert(old(self).node_ok(there.0 as int));
        }
        vec_set_remove(&mut self.nodes[here.0].links, there);
        if bidirectional && here.0 != there.0 {
            vec_set_remove(&mut self.nodes[there.0].links, here);
        }
        proof {
            if here.0 == there.0 {
                assert(here == there);
            }
            assert forall|i: int| 0 <= i < self.nodes@.len() implies self.node_ok(i) by {
                assert(old(self).node_ok(i));
                assert forall|k: int| 0 <= k < self.nodes@[i].links@.len()
                    implies self.nodes@[i].adjacencies@.contains(
                        #[trigger] self.nodes@[i].links@[k]) by {
                    let y = self.nodes@[i].links@[k];
                    assert(self.nodes@[i].links@.contains(y));
                    assert(old(self).nodes@[i].links@.contains(y));
                    assert(old(self).nodes@[i].adjacencies@.contains(y));
                }
            }
        }
    }

    /// The set of nodes adjacent to `id`: connection candidates, not
    /// necessarily passages. For carved passages use [`Pool::passages_of`].
    pub fn neighborhood_of(&self, id: NodeId) -> (r: Vec<NodeId>)
        requires
            self.valid(id),
        ensures
            r@ == self.nodes@[id.0 as int].adjacencies@,
    {
        self.nodes[id.0].adjacencies.clone()
    }

    /// The set of nodes reachable from `id` by a single carved passage.
    /// For mere adjacency candidates use [`Pool::neighborhood_of`].
    pub fn passages_of(&self, id: NodeId) -> (r: Vec<NodeId>)
        requires
            self.valid(id),
        ensures
            r@ == self.nodes@[id.0 as int].links@,
    {
        self.nodes[id.0].links.clone()
    }

    /// The walls of `id`: nodes adjacent to it but not linked to it.
    pub fn walls_of(&self, id: NodeId) -> (r: Vec<NodeId>)
        requires
            self.wf(),
            self.valid(id),
        ensures
            r@.no_duplicates(),
            forall|y: NodeId| #[trigger] r@.contains(y)
                <==> self.adjacent(id, y) && !self.linked(id, y),
    {
        let neighborhood = self.neighborhood_of(id);
        let mut r: Vec<NodeId> = Vec::new();
        let mut i: usize = 0;
        proof {
            assert(self.node_ok(id.0 as int));
        }
        while i < neighborhood.len()
            invariant
                self.wf(),
                self.valid(id),
                neighborhood@ == self.nodes@[id.0 as int].adjacencies@,
                i <= neighborhood@.len(),
                r@.no_duplicates(),
                forall|k: int| 0 <= k < r@.len() ==> !self.linked(id, #[trigger] r@[k]),
                forall|k: int| 0 <= k < r@.len()
                    ==> exists|j: int| 0 <= j < i && neighborhood@[j] == #[trigger] r@[k],
                forall|j: int| 0 <= j < i && !self.linked(id, #[trigger] neighborhood@[j])
                    ==> r@.contains(neighborhood@[j]),
            decreases neighborhood@.len() - i,
        {
            let candidate = neighborhood[i];
            let ghost r0 = r@;
            if !vec_contains(&self.nodes[id.0].links, candidate) {
                proof {
                    assert(self.node_ok(id.0 as int));
                    assert forall|k: int| 0 <= k < r0.len() implies r0[k] != candidate by {
                        let j = choose|j: int| 0 <= j < i && neighborhood@[j] == r0[k];
                        assert(neighborhood@[i as int] == candidate);
                    }
                }
                r.push(candidate);
                proof {
                    assert(neighborhood@[i as int] == r@[r@.len() - 1]);
                    assert forall|m: int, n: int| 0 <= m < n < r@.len()
                        implies r@[m] != r@[n] by {
                        if n < r@.len() - 1 {
                            assert(r0[m] != r0[n]);
                        } else {
                            assert(r@[m] == r0[m]);
                        }
                    }
                    assert forall|z: NodeId| #[trigger] r0.contains(z)
                        implies r@.contains(z) by {
                        let k = choose|k: int| 0 <= k < r0.len() && r0[k] == z;
                        assert(r@[k] == z);
                    }
                    assert(r@.contains(candidate)) by {
                        assert(r@[r@.len() - 1] == candidate);
                    }
                }
            }
            i += 1;
        }
        proof {
            assert forall|y: NodeId| #[trigger] r@.contains(y)
                implies self.adjacent(id, y) && !self.linked(id, y) by {
                let k = choose|k: int| 0 <= k < r@.len() && r@[k] == y;
                let j = choose|j: int| 0 <= j < i && neighborhood@[j] == r@[k];
                assert(neighborhood@.contains(y));
            }
            assert forall|y: NodeId| self.adjacent(id, y) && !self.linked(id, y)
                implies #[trigger] r@.contains(y) by {
                let j = choose|j: int|
                    0 <= j < neighborhood@.len() && neighborhood@[j] == y;
                assert(r@.contains(neighborhood@[j]));
            }
        }
        r
    }

    /// Borrows the node with the given id.
    pub fn get(&self, id: NodeId) -> (r: &Node<T>)
        requires
            self.valid(id),
        ensures
            *r == self.nodes@[id.0 as int],
    {
        &self.nodes[id.0]
    }

    /// Mutably borrows the node with the given id.
    pub fn get_mut(&mut self, id: NodeId) -> (r: &mut Node<T>)
        requires
            old(self).valid(id),
        ensures
            *r == old(self).nodes@[id.0 as int],
            final(self).nodes@ == old(self).nodes@.update(id.0 as int, *final(r)),
    {
        &mut self.nodes[id.0]
    }

    /// Checks whether the cells `here` and `there` are connected by a passage.
    pub fn is_linked(&self, here: NodeId, there: NodeId) -> (r: bool)
        requires
            self.valid(here),
        ensures
            r == self.linked(here, there),
    {
        vec_contains(&self.nodes[here.0].links, there)
    }

    /// Borrows every node's payload, in id order.
    pub fn payloads(&self) -> (r: Vec<&T>)
        ensures
            r@.len() == self.nodes@.len(),
            forall|i: int| 0 <= i < r@.len()
                ==> *(#[trigger] r@[i]) == self.nodes@[i].payload,
    {
        let mut r: Vec<&T> = Vec::new();
        let mut i: usize = 0;
        while i < self.nodes.len()
            invariant
                i <= self.nodes@.len(),
                r@.len() == i,
                forall|k: int| 0 <= k < i
                    ==> *(#[trigger] r@[k]) == self.nodes@[k].payload,
            decreases self.nodes@.len() - i,
        {
            r.push(&self.nodes[i].payload);
            i += 1;
        }
        r
    }

    /// The set of neighbors of `id` that the `visited` bitmap does not mark.
    pub fn unvisited_neighborhood_of(&self, visited: &Vec<bool>, id: NodeId) -> (r: Vec<NodeId>)
        requires
            self.wf(),
            self.valid(id),
            visited@.len() == self.nodes@.len(),
        ensures
            r@.no_duplicates(),
            forall|y: NodeId| #[trigger] r@.contains(y)
                <==> self.adjacent(id, y) && !visited@[y.0 as int],
    {
        let neighborhood = self.neighborhood_of(id);
        let mut r: Vec<NodeId> = Vec::new();
        let mut i: usize = 0;
        proof {
            assert(self.node_ok(id.0 as int));
        }
        while i < neighborhood.len()
            invariant
                self.wf(),
                self.valid(id),
                visited@.len() == self.nodes@.len(),
                neighborhood@ == self.nodes@[id.0 as int].adjacencies@,
                i <= neighborhood@.len(),
                r@.no_duplicates(),
                forall|k: int| 0 <= k < r@.len() ==> !visited@[(#[trigger] r@[k]).0 as int],
                forall|k: int| 0 <= k < r@.len()
                    ==> exists|j: int| 0 <= j < i && neighborhood@[j] == #[trigger] r@[k],
                forall|j: int| 0 <= j < i && !visited@[(#[trigger] neighborhood@[j]).0 as int]
                    ==> r@.contains(neighborhood@[j]),
            decreases neighborhood@.len() - i,
        {
            let candidate = neighborhood[i];
            proof {
                assert(self.node_ok(id.0 as int));
                assert(neighborhood@.contains(neighborhood@[i as int]));
            }
            let ghost r0 = r@;
            if !visited[candidate.0] {
                proof {
                    assert forall|k: int| 0 <= k < r0.len() implies r0[k] != candidate by {
                        let j = choose|j: int| 0 <= j < i && neighborhood@[j] == r0[k];
                        assert(neighborhood@[i as int] == candidate);
                    }
                }
                r.push(candidate);
                proof {
                    assert(neighborhood@[i as int] == r@[r@.len() - 1]);
                    assert forall|m: int, n: int| 0 <= m < n < r@.len()
                        implies r@[m] != r@[n] by {
                        if n < r@.len() - 1 {
                            assert(r0[m] != r0[n]);
                        } else {
                            assert(r@[m] == r0[m]);
                        }
                    }
                    assert forall|z: NodeId| #[trigger] r0.contains(z)
                        implies r@.contains(z) by {
                        let k = choose|k: int| 0 <= k < r0.len() && r0[k] == z;
                        assert(r@[k] == z);
                    }
                    assert(r@.contains(candidate)) by {
                        assert(r@[r@.len() - 1] == candidate);
                    }
                }
            }
            i += 1;
        }
        proof {
            assert forall|y: NodeId| #[trigger] r@.contains(y)
                implies self.adjacent(id, y) && !visited@[y.0 as int] by {
                let k = choose|k: int| 0 <= k < r@.len() && r@[k] == y;
                let j = choose|j: int| 0 <= j < i && neighborhood@[j] == r@[k];
                assert(neighborhood@.contains(y));
            }
            assert forall|y: NodeId| self.adjacent(id, y) && !visited@[y.0 as int]
                implies #[trigger] r@.contains(y) by {
                let j = choose|j: int|
                    0 <= j < neighborhood@.len() && neighborhood@[j] == y;
                assert(r@.contains(neighborhood@[j]));
            }
        }
        r
    }

    /// Finds a node outside the `visited` set that is adjacent (across a
    /// wall) to a node inside it. The scan order is deterministic but
    /// otherwise arbitrary.
    pub fn scan_frontier(&self, visited: &Vec<bool>) -> (r: FrontierSearchResult)
        requires
            self.wf(),
            visited@.len() == self.nodes@.len(),
        ensures
            match r {
                FrontierSearchResult::Found { unvisited, visited: visited_root } => {
                    &&& self.valid(unvisited)
                    &&& self.valid(visited_root)
                    &&& !visited@[unvisited.0 as int]
                    &&& visited@[visited_root.0 as int]
                    &&& self.adjacent(unvisited, visited_root)
                    &&& !self.linked(unvisited, visited_root)
                },
                FrontierSearchResult::NoFrontier => forall|u: NodeId, w: NodeId|
                    self.valid(u) && !visited@[u.0 as int]
                    && #[trigger] self.adjacent(u, w) && !self.linked(u, w)
                    ==> !visited@[w.0 as int],
            },
    {
        let n = self.nodes.len();
        let mut i: usize = 0;
        while i < n
            invariant
                self.wf(),
                visited@.len() == self.nodes@.len(),
                n == self.nodes@.len(),
                i <= n,
                forall|u: NodeId, w: NodeId|
                    u.0 < i && !visited@[u.0 as int]
                    && #[trigger] self.adjacent(u, w) && !self.linked(u, w)
                    ==> !visited@[w.0 as int],
            decreases n - i,
        {
            if !visited[i] {
                let walls = self.walls_of(NodeId(i));
                let mut j: usize = 0;
                while j < walls.len()
                    invariant
                        self.wf(),
                        visited@.len() == self.nodes@.len(),
                        i < self.nodes@.len(),
                        !visited@[i as int],
                        j <= walls@.len(),
                        walls@.no_duplicates(),
                        forall|y: NodeId| #[trigger] walls@.contains(y)
                            <==> self.adjacent(NodeId(i), y) && !self.linked(NodeId(i), y),
                        forall|k: int| 0 <= k < j ==> !visited@[(#[trigger] walls@[k]).0 as int],
                    decreases walls@.len() - j,
                {
                    let w = walls[j];
                    proof {
                        assert(walls@.contains(walls@[j as int]));
                        assert(self.adjacent(NodeId(i), w));
                        assert(self.node_ok(i as int));
                        let k = choose|k: int| 0 <= k < self.nodes@[i as int].adjacencies@.len()
                            && (#[trigger] self.nodes@[i as int].adjacencies@[k]) == w;
                        assert(w.0 < self.nodes@.len());
                    }
                    if visited[w.0] {
                        return FrontierSearchResult::Found { unvisited: NodeId(i), visited: w };
                    }
                    j += 1;
                }
                proof {
                    assert forall|w: NodeId|
                        self.adjacent(NodeId(i), w) && !self.linked(NodeId(i), w)
                        implies !visited@[w.0 as int] by {
                        assert(walls@.contains(w));
                        let k = choose|k: int| 0 <= k < walls@.len() && walls@[k] == w;
                    }
                    assert forall|u: NodeId, w: NodeId|
                        u.0 < i + 1 && !visited@[u.0 as int]
                        && #[trigger] self.adjacent(u, w) && !self.linked(u, w)
                        implies !visited@[w.0 as int] by {
                        if u.0 == i {
                            assert(u == NodeId(i));
                        }
                    }
                }
            }
            i += 1;
        }
        FrontierSearchResult::NoFrontier
    }

    /// Structure-preserving transform: produces a new pool with identical
    /// ids, adjacency sets and link sets, but each payload replaced by
    /// `f(node)`.
    pub fn map_nodes<U, F: Fn(&Node<T>) -> U>(&self, f: F) -> (r: Pool<U>)
        requires
            forall|i: int| 0 <= i < self.nodes@.len()
                ==> call_requires(f, (&self.nodes@[i],)),
        ensures
            r.nodes@.len() == self.nodes@.len(),
            forall|i: int| 0 <= i < r.nodes@.len() ==> {
                &&& (#[trigger] r.nodes@[i]).id == self.nodes@[i].id
                &&& r.nodes@[i].links@ == self.nodes@[i].links@
                &&& r.nodes@[i].adjacencies@ == self.nodes@[i].adjacencies@
                &&& call_ensures(f, (&self.nodes@[i],), r.nodes@[i].payload)
            },
            self.wf() ==> r.wf(),
    {
        let mut nodes: Vec<Node<U>> = Vec::new();
        let mut i: usize = 0;
        while i < self.nodes.len()
            invariant
                forall|k: int| 0 <= k < self.nodes@.len()
                    ==> call_requires(f, (&self.nodes@[k],)),
                i <= self.nodes@.len(),
                nodes@.len() == i,
                forall|k: int| 0 <= k < i ==> {
                    &&& (#[trigger] nodes@[k]).id == self.nodes@[k].id
                    &&& nodes@[k].links@ == self.nodes@[k].links@
                    &&& nodes@[k].adjacencies@ == self.nodes@[k].adjacencies@
                    &&& call_ensures(f, (&self.nodes@[k],), nodes@[k].payload)
                },
            decreases self.nodes@.len() - i,
        {
            let source_node = &self.nodes[i];
            let payload = f(source_node);
            nodes.push(Node {
                id: source_node.id,
                links: source_node.links.clone(),
                adjacencies: source_node.adjacencies.clone(),
                payload,
            });
            i += 1;
        }
        let r = Pool { nodes };
        proof {
            if self.wf() {
                assert forall|k: int| 0 <= k < r.nodes@.len() implies r.node_ok(k) by {
                    assert(self.node_ok(k));
                }
            }
        }
        r
    }

    /// `pair` is what the double breadth-first scan yields: its first node
    /// maximizes the link distance from the arbitrary scan start (the
    /// pool's first node), its second maximizes the link distance from the
    /// first, infinite distances counting as zero and ties going to the
    /// highest id.
    pub open spec fn is_furthest_pair(self, pair: (NodeId, NodeId)) -> bool {
        &&& self.valid(pair.0)
        &&& self.valid(pair.1)
        &&& forall|i: int, di: Distance, dp: Distance|
            0 <= i < self.nodes@.len()
            && #[trigger] is_link_dist(self, self.nodes@[0].id, NodeId(i as usize), di)
            && #[trigger] is_link_dist(self, self.nodes@[0].id, pair.0, dp)
            ==> finite_key(di) <= finite_key(dp)
                && (i > pair.0.0 as int ==> finite_key(di) < finite_key(dp))
        &&& forall|i: int, di: Distance, dp: Distance|
            0 <= i < self.nodes@.len()
            && #[trigger] is_link_dist(self, pair.0, NodeId(i as usize), di)
            && #[trigger] is_link_dist(self, pair.0, pair.1, dp)
            ==> finite_key(di) <= finite_key(dp)
                && (i > pair.1.0 as int ==> finite_key(di) < finite_key(dp))
    }

    /// Returns a pair of nodes approximating the two most mutually distant
    /// nodes of the link graph, by double breadth-first search: exact when
    /// the link graph is a tree, a heuristic otherwise. Yields nothing on
    /// an empty pool.
    pub fn furthest_pair(&self) -> (r: Option<(NodeId, NodeId)>)
        requires
            self.wf(),
        ensures
            r is Some <==> self.nodes@.len() > 0,
            r matches Some(pair) ==> self.is_furthest_pair(pair),
    {
        if self.nodes.len() == 0 {
            return None;
        }
        let arbitrary_id = self.get_arbitrary_node_id();
        proof {
            assert(self.node_ok(0));
        }
        let first_pad = DijkstraPad::new(self, arbitrary_id);
        let ghost first_pad_pool = first_pad.pool;
        let distances_from_arbitrary = first_pad.perform();
        let furthest_from_arbitrary = max_finite_distance_node(&distances_from_arbitrary);
        proof {
            assert(self.valid(furthest_from_arbitrary));
        }
        let second_pad = DijkstraPad::new(self, furthest_from_arbitrary);
        let ghost second_pad_pool = second_pad.pool;
        let distances_from_furthest = second_pad.perform();
        let furthest_from_furthest = max_finite_distance_node(&distances_from_furthest);
        proof {
            lemma_pad_links_match(*self, first_pad_pool);
            lemma_pad_links_match(*self, second_pad_pool);
            assert forall|i: int| 0 <= i < distances_from_arbitrary.pool.nodes@.len()
                implies is_link_dist(*self, arbitrary_id, NodeId(i as usize),
                    (#[trigger] distances_from_arbitrary.pool.nodes@[i]).payload) by {
                lemma_link_dist_same_links(
                    first_pad_pool, *self, arbitrary_id, NodeId(i as usize),
                    distances_from_arbitrary.pool.nodes@[i].payload);
            }
            assert forall|i: int| 0 <= i < distances_from_furthest.pool.nodes@.len()
                implies is_link_dist(*self, furthest_from_arbitrary, NodeId(i as usize),
                    (#[trigger] distances_from_furthest.pool.nodes@[i]).payload) by {
                lemma_link_dist_same_links(
                    second_pad_pool, *self, furthest_from_arbitrary, NodeId(i as usize),
                    distances_from_furthest.pool.nodes@[i].payload);
            }
            lemma_furthest_scan(
                *self, arbitrary_id, distances_from_arbitrary, furthest_from_arbitrary);
            lemma_furthest_scan(
                *self, furthest_from_arbitrary, distances_from_furthest,
                furthest_from_furthest);
        }
        Some((furthest_from_arbitrary, furthest_from_furthest))
    }

    /// Carves a passage along every adjacency in the pool. Meant for
    /// debugging renderers; adjacency must be symmetric.
    pub fn debug_connect_all(&mut self)
        requires
            old(self).wf(),
            forall|a: NodeId, b: NodeId| #[trigger] old(self).adjacent(a, b)
                ==> old(self).adjacent(b, a),
        ensures
            final(self).wf(),
            final(self).nodes@.len() == old(self).nodes@.len(),
            forall|a: NodeId, b: NodeId|
                final(self).adjacent(a, b) == old(self).adjacent(a, b),
            forall|a: NodeId, b: NodeId|
                #[trigger] final(self).linked(a, b)
                    == (old(self).adjacent(a, b) || old(self).linked(a, b)),
    {
        let n = self.nodes.len();
        let mut i: usize = 0;
        while i < n
            invariant
                self.wf(),
                n == self.nodes@.len(),
                i <= n,
                self.nodes@.len() == old(self).nodes@.len(),
                forall|a: NodeId, b: NodeId| #[trigger] old(self).adjacent(a, b)
                    ==> old(self).adjacent(b, a),
                forall|t: int| 0 <= t < n
                    ==> (#[trigger] self.nodes@[t]).adjacencies@
                        == old(self).nodes@[t].adjacencies@,
                forall|a: NodeId, b: NodeId|
                    self.adjacent(a, b) == old(self).adjacent(a, b),
                forall|a: NodeId, b: NodeId| #[trigger] self.linked(a, b)
                    ==> old(self).adjacent(a, b) || old(self).linked(a, b),
                forall|a: NodeId, b: NodeId| old(self).linked(a, b)
                    ==> #[trigger] self.linked(a, b),
                forall|a: NodeId, b: NodeId|
                    a.0 < i && #[trigger] old(self).adjacent(a, b) ==> self.linked(a, b),
            decreases n - i,
        {
            let here = NodeId(i);
            let neighborhood = self.neighborhood_of(here);
            let mut j: usize = 0;
            while j < neighborhood.len()
                invariant
                    self.wf(),
                    n == self.nodes@.len(),
                    i < n,
                    j <= neighborhood@.len(),
                    here == NodeId(i),
                    neighborhood@ == old(self).nodes@[i as int].adjacencies@,
                    self.nodes@.len() == old(self).nodes@.len(),
                    forall|a: NodeId, b: NodeId| #[trigger] old(self).adjacent(a, b)
                        ==> old(self).adjacent(b, a),
                    forall|t: int| 0 <= t < n
                        ==> (#[trigger] self.nodes@[t]).adjacencies@
                            == old(self).nodes@[t].adjacencies@,
                    forall|a: NodeId, b: NodeId|
                        self.adjacent(a, b) == old(self).adjacent(a, b),
                    forall|a: NodeId, b: NodeId| #[trigger] self.linked(a, b)
                        ==> old(self).adjacent(a, b) || old(self).linked(a, b),
                    forall|a: NodeId, b: NodeId| old(self).linked(a, b)
                        ==> #[trigger] self.linked(a, b),
                    forall|a: NodeId, b: NodeId|
                        a.0 < i && #[trigger] old(self).adjacent(a, b) ==> self.linked(a, b),
                    forall|k: int| 0 <= k < j
                        ==> self.linked(here, #[trigger] neighborhood@[k]),
                decreases neighborhood@.len() - j,
            {
                let there = neighborhood[j];
                proof {
                    assert(old(self).nodes@[i as int].adjacencies@.contains(
                        neighborhood@[j as int]));
                    assert(old(self).adjacent(here, there));
                    assert(old(self).adjacent(there, here));
                }
                self.link_cells(here, there, true);
                j += 1;
            }
            proof {
                assert forall|a: NodeId, b: NodeId|
                    a.0 < i + 1 && #[trigger] old(self).adjacent(a, b)
                    implies self.linked(a, b) by {
                    if a.0 == i {
                        assert(a == here);
                        let k = choose|k: int|
                            0 <= k < old(self).nodes@[i as int].adjacencies@.len()
                            && old(self).nodes@[i as int].adjacencies@[k] == b;
                        assert(self.linked(here, neighborhood@[k]));
                    }
                }
            }
            i += 1;
        }
        proof {
            assert forall|a: NodeId, b: NodeId|
                #[trigger] self.linked(a, b)
                    == (old(self).adjacent(a, b) || old(self).linked(a, b)) by {
                if old(self).linked(a, b) {
                    assert(self.linked(a, b));
                }
                if old(self).adjacent(a, b) {
                    assert(a.0 < n);
                    assert(self.linked(a, b));
                }
            }
        }
    }
}

// ------------------------------------------------------------------
// Counting helpers for the generation algorithms.
// ------------------------------------------------------------------

/// How many of the first `k` nodes have no links yet.
pub open spec fn isolated_to<T>(nodes: Seq<Node<T>>, k: int) -> int
    decreases k,
{
    if k <= 0 {
        0
    } else {
        isolated_to(nodes, k - 1) + if nodes[k - 1].links@.len() == 0 {
            1int
        } else {
            0int
        }
    }
}

proof fn lemma_isolated_nonneg<T>(nodes: Seq<Node<T>>, k: int)
    ensures
        isolated_to(nodes, k) >= 0,
    decreases k,
{
    if k > 0 {
        lemma_isolated_nonneg(nodes, k - 1);
    }
}

/// With no links anywhere, every node counts as isolated.
proof fn lemma_isolated_full<T>(nodes: Seq<Node<T>>, k: int)
    requires
        0 <= k <= nodes.len(),
        forall|i: int| 0 <= i < nodes.len() ==> (#[trigger] nodes[i]).links@.len() == 0,
    ensures
        isolated_to(nodes, k) == k,
    decreases k,
{
    if k > 0 {
        lemma_isolated_full(nodes, k - 1);
    }
}

/// An isolated node below `k` makes the count positive.
proof fn lemma_isolated_pos<T>(nodes: Seq<Node<T>>, j: int, k: int)
    requires
        0 <= j < k,
        nodes[j].links@.len() == 0,
    ensures
        isolated_to(nodes, k) >= 1,
    decreases k,
{
    lemma_isolated_nonneg(nodes, k - 1);
    if j < k - 1 {
        lemma_isolated_pos(nodes, j, k - 1);
    }
}

/// A zero count means no node below `k` is isolated.
proof fn lemma_isolated_zero<T>(nodes: Seq<Node<T>>, j: int, k: int)
    requires
        isolated_to(nodes, k) == 0,
        0 <= j < k,
    ensures
        nodes[j].links@.len() > 0,
{
    if nodes[j].links@.len() == 0 {
        lemma_isolated_pos(nodes, j, k);
    }
}

/// The per-index contribution to the isolated count.
pub open spec fn isolated_ind<T>(nodes: Seq<Node<T>>, j: int) -> int {
    if nodes[j].links@.len() == 0 {
        1int
    } else {
        0int
    }
}

/// Changing two nodes changes the count by the two indicator differences.
proof fn lemma_isolated_update2<T>(
    nodes: Seq<Node<T>>,
    updated: Seq<Node<T>>,
    j1: int,
    j2: int,
    k: int,
)
    requires
        updated.len() == nodes.len(),
        0 <= j1 < nodes.len(),
        0 <= j2 < nodes.len(),
        j1 != j2,
        forall|t: int| 0 <= t < nodes.len() && t != j1 && t != j2 ==> updated[t] == nodes[t],
        k <= nodes.len(),
    ensures
        isolated_to(updated, k) == isolated_to(nodes, k)
            - (if j1 < k { isolated_ind(nodes, j1) - isolated_ind(updated, j1) } else { 0int })
            - (if j2 < k { isolated_ind(nodes, j2) - isolated_ind(updated, j2) } else { 0int }),
    decreases k,
{
    if k > 0 {
        lemma_isolated_update2(nodes, updated, j1, j2, k - 1);
    }
}

/// The total number of directed passages among the first `k` nodes.
pub open spec fn links_total<T>(nodes: Seq<Node<T>>, k: int) -> int
    decreases k,
{
    if k <= 0 {
        0
    } else {
        links_total(nodes, k - 1) + nodes[k - 1].links@.len()
    }
}

/// Changing the link sets of two nodes changes the total by their two
/// length differences.
pub proof fn lemma_links_total_update2<T>(
    nodes: Seq<Node<T>>,
    updated: Seq<Node<T>>,
    j1: int,
    j2: int,
    k: int,
)
    requires
        updated.len() == nodes.len(),
        0 <= j1 < nodes.len(),
        0 <= j2 < nodes.len(),
        j1 != j2,
        forall|t: int| 0 <= t < nodes.len() && t != j1 && t != j2 ==> updated[t] == nodes[t],
        k <= nodes.len(),
    ensures
        links_total(updated, k) == links_total(nodes, k)
            + (if j1 < k {
                updated[j1].links@.len() - nodes[j1].links@.len()
            } else {
                0int
            })
            + (if j2 < k {
                updated[j2].links@.len() - nodes[j2].links@.len()
            } else {
                0int
            }),
    decreases k,
{
    if k > 0 {
        lemma_links_total_update2(nodes, updated, j1, j2, k - 1);
    }
}

/// With no links anywhere the total is zero.
pub proof fn lemma_links_total_empty<T>(nodes: Seq<Node<T>>, k: int)
    requires
        0 <= k <= nodes.len(),
        forall|i: int| 0 <= i < nodes.len() ==> (#[trigger] nodes[i]).links@.len() == 0,
    ensures
        links_total(nodes, k) == 0,
    decreases k,
{
    if k > 0 {
        lemma_links_total_empty(nodes, k - 1);
    }
}

/// A fully set bitmap counts its whole window.
pub proof fn lemma_marked_full(v: Seq<bool>, k: int)
    requires
        0 <= k <= v.len(),
        forall|i: int| 0 <= i < v.len() ==> #[trigger] v[i],
    ensures
        marked_to(v, k) == k,
    decreases k,
{
    if k > 0 {
        lemma_marked_full(v, k - 1);
    }
}

/// How many of the first `k` entries of a bitmap are set.
pub open spec fn marked_to(v: Seq<bool>, k: int) -> int
    decreases k,
{
    if k <= 0 {
        0
    } else {
        marked_to(v, k - 1) + if v[k - 1] {
            1int
        } else {
            0int
        }
    }
}

pub proof fn lemma_marked_le(v: Seq<bool>, k: int)
    requires
        0 <= k,
    ensures
        0 <= marked_to(v, k) <= k,
    decreases k,
{
    if k > 0 {
        lemma_marked_le(v, k - 1);
    }
}

/// Setting a clear bit raises the count of any window that sees it by one.
pub proof fn lemma_marked_set(v: Seq<bool>, updated: Seq<bool>, j: int, k: int)
    requires
        updated.len() == v.len(),
        0 <= j < v.len(),
        !v[j],
        updated == v.update(j, true),
        k <= v.len(),
    ensures
        j < k ==> marked_to(updated, k) == marked_to(v, k) + 1,
        j >= k ==> marked_to(updated, k) == marked_to(v, k),
    decreases k,
{
    if k > 0 {
        lemma_marked_set(v, updated, j, k - 1);
    }
}

impl<T> Pool<T> {
    /// `other` has the same nodes, adjacency and payloads as `self`, and at
    /// least its passages: the only kind of change a generation algorithm
    /// makes.
    pub open spec fn links_extended(self, other: Pool<T>) -> bool {
        &&& other.nodes@.len() == self.nodes@.len()
        &&& forall|i: int| 0 <= i < self.nodes@.len() ==> {
            &&& (#[trigger] other.nodes@[i]).id == self.nodes@[i].id
            &&& other.nodes@[i].adjacencies@ == self.nodes@[i].adjacencies@
            &&& other.nodes@[i].payload == self.nodes@[i].payload
        }
        &&& forall|a: NodeId, b: NodeId| #[trigger] self.linked(a, b) ==> other.linked(a, b)
    }

    /// Extending passages twice is still an extension.
    pub proof fn lemma_links_extended_trans(self, mid: Pool<T>, last: Pool<T>)
        requires
            self.links_extended(mid),
            mid.links_extended(last),
        ensures
            self.links_extended(last),
    {
    }

    /// The adjacency relation is symmetric, as it is whenever geometry was
    /// declared bidirectionally.
    pub open spec fn adj_symmetric(self) -> bool {
        forall|a: NodeId, b: NodeId| #[trigger] self.adjacent(a, b) ==> self.adjacent(b, a)
    }

    /// No node is adjacent to itself.
    pub open spec fn adj_irreflexive(self) -> bool {
        forall|a: NodeId| !self.adjacent(a, a)
    }

    /// Every node has at least one adjacency to walk through.
    pub open spec fn no_dead_ends(self) -> bool {
        forall|i: int| 0 <= i < self.nodes@.len()
            ==> (#[trigger] self.nodes@[i]).adjacencies@.len() > 0
    }

    /// The walls of `id` whose far side the bitmap has not visited.
    fn unvisited_walls_of(&self, visited: &Vec<bool>, id: NodeId) -> (r: Vec<NodeId>)
        requires
            self.wf(),
            self.valid(id),
            visited@.len() == self.nodes@.len(),
        ensures
            r@.no_duplicates(),
            forall|y: NodeId| #[trigger] r@.contains(y)
                <==> self.adjacent(id, y) && !self.linked(id, y) && !visited@[y.0 as int],
    {
        let walls = self.walls_of(id);
        let mut r: Vec<NodeId> = Vec::new();
        let mut i: usize = 0;
        while i < walls.len()
            invariant
                self.wf(),
                self.valid(id),
                visited@.len() == self.nodes@.len(),
                walls@.no_duplicates(),
                forall|y: NodeId| #[trigger] walls@.contains(y)
                    <==> self.adjacent(id, y) && !self.linked(id, y),
                i <= walls@.len(),
                r@.no_duplicates(),
                forall|k: int| 0 <= k < r@.len()
                    ==> !visited@[(#[trigger] r@[k]).0 as int],
                forall|k: int| 0 <= k < r@.len()
                    ==> exists|j: int| 0 <= j < i && walls@[j] == #[trigger] r@[k],
                forall|j: int| 0 <= j < i && !visited@[(#[trigger] walls@[j]).0 as int]
                    ==> r@.contains(walls@[j]),
            decreases walls@.len() - i,
        {
            let candidate = walls[i];
            proof {
                assert(walls@.contains(walls@[i as int]));
                assert(self.node_ok(id.0 as int));
                let q = choose|q: int| 0 <= q < self.nodes@[id.0 as int].adjacencies@.len()
                    && (#[trigger] self.nodes@[id.0 as int].adjacencies@[q]) == candidate;
                assert(candidate.0 < self.nodes@.len());
            }
            let ghost r0 = r@;
            if !visited[candidate.0] {
                proof {
                    assert forall|k: int| 0 <= k < r0.len() implies r0[k] != candidate by {
                        let j = choose|j: int| 0 <= j < i && walls@[j] == r0[k];
                        assert(walls@[i as int] == candidate);
                    }
                }
                r.push(candidate);
                proof {
                    assert(walls@[i as int] == r@[r@.len() - 1]);
                    assert forall|m: int, n: int| 0 <= m < n < r@.len()
                        implies r@[m] != r@[n] by {
                        if n < r@.len() - 1 {
                            assert(r0[m] != r0[n]);
                        } else {
                            assert(r@[m] == r0[m]);
                        }
                    }
                    assert forall|z: NodeId| #[trigger] r0.contains(z)
                        implies r@.contains(z) by {
                        let k = choose|k: int| 0 <= k < r0.len() && r0[k] == z;
                        assert(r@[k] == z);
                    }
                    assert(r@.contains(candidate)) by {
                        assert(r@[r@.len() - 1] == candidate);
                    }
                }
            }
            i += 1;
        }
        proof {
            assert forall|y: NodeId| #[trigger] r@.contains(y)
                implies self.adjacent(id, y) && !self.linked(id, y)
                    && !visited@[y.0 as int] by {
                let k = choose|k: int| 0 <= k < r@.len() && r@[k] == y;
                let j = choose|j: int| 0 <= j < i && walls@[j] == r@[k];
                assert(walls@.contains(y));
            }
            assert forall|y: NodeId|
                self.adjacent(id, y) && !self.linked(id, y) && !visited@[y.0 as int]
                implies #[trigger] r@.contains(y) by {
                assert(walls@.contains(y));
                let j = choose|j: int| 0 <= j < walls@.len() && walls@[j] == y;
                assert(r@.contains(walls@[j]));
            }
        }
        r
    }

    /// Aldous-Broder: an unbiased random walk that links every node it
    /// first touches to the node it came from. It is done when no node is
    /// left without a link; reports whether it got there within its step
    /// budget (an astronomically generous one, but a random walk has no
    /// sure bound).
    pub fn aldous_broder(&mut self, rng: &mut rand::rngs::ThreadRng) -> (complete: bool)
        requires
            old(self).wf(),
            old(self).nodes@.len() > 0,
            old(self).adj_symmetric(),
            forall|i: int| 0 <= i < old(self).nodes@.len()
                ==> (#[trigger] old(self).nodes@[i]).links@.len() == 0,
            old(self).nodes@.len() > 1 ==> old(self).no_dead_ends(),
        ensures
            final(self).wf(),
            old(self).links_extended(*final(self)),
            complete && old(self).nodes@.len() > 1
                ==> forall|i: int| 0 <= i < final(self).nodes@.len()
                    ==> (#[trigger] final(self).nodes@[i]).links@.len() > 0,
            complete ==> final(self).link_connected(),
            old(self).nodes@.len() == 1 ==> complete,
            complete ==> links_total(final(self).nodes@, old(self).nodes@.len() as int)
                == 2 * (old(self).nodes@.len() - 1),
    {
        let ghost initial = *self;
        let n = self.nodes.len();
        let mut cell = self.get_random_node_id(rng);
        let mut unvisited = n - 1;
        proof {
            lemma_isolated_full(self.nodes@, n as int);
            lemma_links_total_empty(self.nodes@, n as int);
        }

        let mut fuel: u64 = u64::MAX;
        while unvisited > 0 && fuel > 0
            invariant
                n == self.nodes@.len(),
                n > 0,
                self.wf(),
                self.adj_symmetric(),
                n > 1 ==> self.no_dead_ends(),
                self.valid(cell),
                initial.links_extended(*self),
                unvisited == isolated_to(self.nodes@, n as int)
                    - isolated_ind(self.nodes@, cell.0 as int),
                self.nodes@[cell.0 as int].links@.len() == 0
                    ==> isolated_to(self.nodes@, n as int) == n,
                forall|a: NodeId, b: NodeId| #[trigger] self.linked(a, b)
                    ==> self.linked(b, a),
                links_total(self.nodes@, n as int) == 2 * ((n - 1) - unvisited),
                forall|i: int, j: int|
                    0 <= i < n && 0 <= j < n
                    && (#[trigger] self.nodes@[i]).links@.len() > 0
                    && (#[trigger] self.nodes@[j]).links@.len() > 0
                    ==> self.link_reach(NodeId(i as usize), NodeId(j as usize)),
            decreases fuel,
        {
            proof {
                assert(self.node_ok(cell.0 as int));
                if n == 1 {
                    assert(cell.0 == 0);
                    assert(isolated_to(self.nodes@, 1)
                        == isolated_to(self.nodes@, 0) + isolated_ind(self.nodes@, 0));
                    assert(false);
                }
                assert(self.nodes@[cell.0 as int].adjacencies@.len() > 0);
            }
            let neighbors = self.neighborhood_of(cell);
            let pick = rand_index(rng, neighbors.len());
            let random_neighbor = neighbors[pick];
            proof {
                assert(neighbors@.contains(neighbors@[pick as int]));
                let q = choose|q: int| 0 <= q < self.nodes@[cell.0 as int].adjacencies@.len()
                    && (#[trigger] self.nodes@[cell.0 as int].adjacencies@[q])
                        == random_neighbor;
                assert(self.adjacent(cell, random_neighbor));
                assert(random_neighbor.0 < n);
            }
            if random_neighbor.0 != cell.0 && self.nodes[random_neighbor.0].links.len() == 0 {
                let ghost before = *self;
                self.link_cells(cell, random_neighbor, true);
                unvisited = unvisited - 1;
                proof {
                    lemma_isolated_update2(
                        before.nodes@,
                        self.nodes@,
                        cell.0 as int,
                        random_neighbor.0 as int,
                        n as int,
                    );
                    assert(!before.linked(random_neighbor, cell));
                    assert(!before.linked(cell, random_neighbor)) by {
                        if before.linked(cell, random_neighbor) {
                            assert(before.linked(random_neighbor, cell));
                        }
                    }
                    lemma_links_total_update2(
                        before.nodes@,
                        self.nodes@,
                        cell.0 as int,
                        random_neighbor.0 as int,
                        n as int,
                    );
                    assert forall|a: NodeId, b: NodeId| #[trigger] self.linked(a, b)
                        implies self.linked(b, a) by {
                        if before.linked(a, b) {
                            assert(before.linked(b, a));
                        }
                    }
                    assert(self.nodes@[random_neighbor.0 as int].links@.len() > 0) by {
                        assert(self.linked(random_neighbor, cell));
                        let q = choose|q: int|
                            0 <= q < self.nodes@[random_neighbor.0 as int].links@.len()
                            && self.nodes@[random_neighbor.0 as int].links@[q] == cell;
                    }
                    assert(self.nodes@[cell.0 as int].links@.len() > 0) by {
                        assert(self.linked(cell, random_neighbor));
                        let q = choose|q: int|
                            0 <= q < self.nodes@[cell.0 as int].links@.len()
                            && self.nodes@[cell.0 as int].links@[q] == random_neighbor;
                    }
                    lemma_isolated_nonneg(self.nodes@, n as int);
                    // The newly linked node joins the one component every
                    // linked node already shares.
                    assert(self.link_steps(cell, cell, 0));
                    assert(self.link_steps(cell, random_neighbor, 1));
                    assert(self.link_steps(random_neighbor, random_neighbor, 0));
                    assert(self.link_steps(random_neighbor, cell, 1));
                    assert forall|i: int, j: int|
                        0 <= i < n && 0 <= j < n
                        && (#[trigger] self.nodes@[i]).links@.len() > 0
                        && (#[trigger] self.nodes@[j]).links@.len() > 0
                        implies self.link_reach(
                            NodeId(i as usize), NodeId(j as usize)) by {
                        let a = NodeId(i as usize);
                        let b = NodeId(j as usize);
                        if before.nodes@[cell.0 as int].links@.len() == 0 {
                            // Nothing was linked yet, so the only linked
                            // nodes now are the two just joined.
                            assert(isolated_to(before.nodes@, n as int) == n);
                            if i != cell.0 as int && i != random_neighbor.0 as int {
                                lemma_isolated_all(before.nodes@, i, n as int);
                                assert(false);
                            }
                            if j != cell.0 as int && j != random_neighbor.0 as int {
                                lemma_isolated_all(before.nodes@, j, n as int);
                                assert(false);
                            }
                            assert(self.link_reach(a, b));
                        } else {
                            let reach_i_cell: bool = i == random_neighbor.0 as int
                                || before.nodes@[i].links@.len() > 0;
                            assert(reach_i_cell);
                            if i == random_neighbor.0 as int {
                                assert(self.link_reach(a, cell));
                            } else {
                                before.lemma_link_reach_mono(*self, a, cell);
                                assert(self.link_reach(a, cell));
                            }
                            if j == random_neighbor.0 as int {
                                assert(self.link_reach(cell, b));
                            } else {
                                before.lemma_link_reach_mono(*self, cell, b);
                                assert(self.link_reach(cell, b));
                            }
                            self.lemma_link_reach_trans(a, cell, b);
                        }
                    }
                }
            } else {
                proof {
                    if self.nodes@[cell.0 as int].links@.len() == 0
                        && random_neighbor != cell {
                        lemma_isolated_all(self.nodes@, random_neighbor.0 as int, n as int);
                        assert(false);
                    }
                }
            }
            cell = random_neighbor;
            fuel = fuel - 1;
        }
        proof {
            if n == 1 {
                assert(cell.0 == 0);
                assert(isolated_to(self.nodes@, 1)
                    == isolated_to(self.nodes@, 0) + isolated_ind(self.nodes@, 0));
                assert(unvisited == 0);
            }
            if unvisited == 0 && n == 1 {
                assert forall|a: NodeId, b: NodeId|
                    self.valid(a) && self.valid(b)
                    implies #[trigger] self.link_reach(a, b) by {
                    assert(a == b);
                    assert(self.link_steps(a, b, 0));
                }
            }
            if unvisited == 0 && n > 1 {
                if self.nodes@[cell.0 as int].links@.len() == 0 {
                    lemma_isolated_pos(self.nodes@, cell.0 as int, n as int);
                    assert(isolated_to(self.nodes@, n as int) == n);
                    assert(isolated_ind(self.nodes@, cell.0 as int) == 1);
                    assert(false);
                }
                assert forall|i: int| 0 <= i < self.nodes@.len()
                    implies (#[trigger] self.nodes@[i]).links@.len() > 0 by {
                    lemma_isolated_zero(self.nodes@, i, n as int);
                }
                assert forall|a: NodeId, b: NodeId|
                    self.valid(a) && self.valid(b)
                    implies #[trigger] self.link_reach(a, b) by {
                    assert(self.nodes@[a.0 as int].links@.len() > 0);
                    assert(self.nodes@[b.0 as int].links@.len() > 0);
                    assert(NodeId(a.0 as int as usize) == a);
                    assert(NodeId(b.0 as int as usize) == b);
                }
            }
        }
        unvisited == 0
    }

    /// Hunt-and-Kill: a random walk that links as it goes, resuming from a
    /// frontier scan whenever it gets stuck.
    #[verifier::rlimit(60)]
    pub fn hunt_and_kill(&mut self, rng: &mut rand::rngs::ThreadRng)
        requires
            old(self).wf(),
            old(self).adj_symmetric(),
        ensures
            final(self).wf(),
            old(self).links_extended(*final(self)),
            (forall|i: int| 0 <= i < old(self).nodes@.len()
                ==> (#[trigger] old(self).nodes@[i]).links@.len() == 0)
                && old(self).adj_connected()
                ==> final(self).link_connected(),
            (forall|i: int| 0 <= i < old(self).nodes@.len()
                ==> (#[trigger] old(self).nodes@[i]).links@.len() == 0)
                && old(self).adj_connected() && old(self).nodes@.len() > 0
                ==> links_total(final(self).nodes@, old(self).nodes@.len() as int)
                    == 2 * (old(self).nodes@.len() - 1),
    {
        let ghost initial = *self;
        let n = self.nodes.len();
        if n == 0 {
            return;
        }
        let ghost fresh = (forall|i: int| 0 <= i < initial.nodes@.len()
            ==> (#[trigger] initial.nodes@[i]).links@.len() == 0)
            && initial.adj_connected();
        let first = self.get_arbitrary_node_id();
        let mut visited: Vec<bool> = Vec::new();
        let mut c: usize = 0;
        while c < n
            invariant
                c <= n,
                visited@.len() == c,
                forall|j: int| 0 <= j < c ==> !(#[trigger] visited@[j]),
            decreases n - c,
        {
            visited.push(false);
            c += 1;
        }
        proof {
            lemma_marked_of_clear(visited@, n as int);
        }
        let ghost v_init = visited@;
        visited[first.0] = true;
        proof {
            lemma_marked_set(v_init, visited@, first.0 as int, n as int);
            lemma_marked_le(visited@, n as int);
            self.lemma_link_reach_refl(first);
            if fresh {
                lemma_links_total_empty(self.nodes@, n as int);
            }
        }

        loop
            invariant
                n == self.nodes@.len(),
                n > 0,
                self.wf(),
                self.adj_symmetric(),
                initial.links_extended(*self),
                visited@.len() == n,
                marked_to(visited@, n as int) <= n,
                0 <= marked_to(visited@, n as int),
                first.0 < n,
                visited@[first.0 as int],
                fresh == ((forall|i: int| 0 <= i < initial.nodes@.len()
                    ==> (#[trigger] initial.nodes@[i]).links@.len() == 0)
                    && initial.adj_connected()),
                fresh ==> forall|i: int| 0 <= i < n && !visited@[i]
                    ==> (#[trigger] self.nodes@[i]).links@.len() == 0,
                forall|i: int| 0 <= i < n && #[trigger] visited@[i]
                    ==> self.link_reach(first, NodeId(i as usize))
                        && self.link_reach(NodeId(i as usize), first),
                fresh ==> forall|a: NodeId, b: NodeId| #[trigger] self.linked(a, b)
                    ==> self.linked(b, a),
                fresh ==> links_total(self.nodes@, n as int)
                    == 2 * (marked_to(visited@, n as int) - 1),
                marked_to(visited@, n as int) >= 1,
            ensures
                n == self.nodes@.len(),
                self.wf(),
                initial.links_extended(*self),
                fresh ==> self.link_connected(),
                fresh ==> links_total(self.nodes@, n as int) == 2 * (n - 1),
            decreases n - marked_to(visited@, n as int),
        {
            let found = self.scan_frontier(&visited);
            match found {
                FrontierSearchResult::Found { unvisited: found_cell, visited: visited_root } => {
                    let ghost round_marked = marked_to(visited@, n as int);
                    let mut current_cell = found_cell;
                    let ghost before = *self;
                    proof {
                        assert(self.adjacent(visited_root, current_cell));
                    }
                    self.link_cells(current_cell, visited_root, true);
                    let ghost v0 = visited@;
                    visited[current_cell.0] = true;
                    proof {
                        lemma_marked_set(v0, visited@, current_cell.0 as int, n as int);
                        lemma_marked_le(visited@, n as int);
                        lemma_reach_after_joining(
                            before, *self, v0, first, visited_root, current_cell, n as int);
                        if fresh {
                            assert(!before.linked(current_cell, visited_root));
                            assert(!before.linked(visited_root, current_cell)) by {
                                if before.linked(visited_root, current_cell) {
                                    assert(before.linked(current_cell, visited_root));
                                }
                            }
                            lemma_links_total_update2(
                                before.nodes@,
                                self.nodes@,
                                current_cell.0 as int,
                                visited_root.0 as int,
                                n as int,
                            );
                            assert forall|a: NodeId, b: NodeId| #[trigger] self.linked(a, b)
                                implies self.linked(b, a) by {
                                if before.linked(a, b) {
                                    assert(before.linked(b, a));
                                }
                            }
                        }
                    }
                    let mut walls = self.unvisited_walls_of(&visited, current_cell);
                    while walls.len() > 0
                        invariant
                            n == self.nodes@.len(),
                            self.wf(),
                            self.adj_symmetric(),
                            initial.links_extended(*self),
                            visited@.len() == n,
                            self.valid(current_cell),
                            marked_to(visited@, n as int) > round_marked,
                            marked_to(visited@, n as int) <= n,
                            walls@.no_duplicates(),
                            forall|y: NodeId| #[trigger] walls@.contains(y)
                                <==> self.adjacent(current_cell, y)
                                    && !self.linked(current_cell, y)
                                    && !visited@[y.0 as int],
                            first.0 < n,
                            visited@[first.0 as int],
                            visited@[current_cell.0 as int],
                            fresh ==> forall|a: NodeId, b: NodeId| #[trigger] self.linked(a, b)
                                ==> self.linked(b, a),
                            fresh ==> links_total(self.nodes@, n as int)
                                == 2 * (marked_to(visited@, n as int) - 1),
                            marked_to(visited@, n as int) >= 1,
                            fresh == ((forall|i: int| 0 <= i < initial.nodes@.len()
                                ==> (#[trigger] initial.nodes@[i]).links@.len() == 0)
                                && initial.adj_connected()),
                            fresh ==> forall|i: int| 0 <= i < n && !visited@[i]
                                ==> (#[trigger] self.nodes@[i]).links@.len() == 0,
                            forall|i: int| 0 <= i < n && #[trigger] visited@[i]
                                ==> self.link_reach(first, NodeId(i as usize))
                                    && self.link_reach(NodeId(i as usize), first),
                        decreases n - marked_to(visited@, n as int),
                    {
                        let next_cell = *sample_uniform(walls.as_slice(), rng);
                        proof {
                            let q = choose|q: int| 0 <= q < walls@.len()
                                && next_cell == walls@[q];
                            assert(walls@.contains(next_cell));
                            assert(self.node_ok(current_cell.0 as int));
                            let a = choose|a: int|
                                0 <= a < self.nodes@[current_cell.0 as int].adjacencies@.len()
                                && (#[trigger] self.nodes@[
                                    current_cell.0 as int].adjacencies@[a]) == next_cell;
                            assert(next_cell.0 < n);
                        }
                        let ghost before = *self;
                        self.link_cells(current_cell, next_cell, true);
                        let ghost joined_from = current_cell;
                        current_cell = next_cell;
                        let ghost v1 = visited@;
                        visited[current_cell.0] = true;
                        proof {
                            lemma_marked_set(v1, visited@, current_cell.0 as int, n as int);
                            lemma_marked_le(visited@, n as int);
                            lemma_reach_after_joining(
                                before, *self, v1, first, joined_from, next_cell, n as int);
                            if fresh {
                                assert(!before.linked(joined_from, next_cell));
                                assert(!before.linked(next_cell, joined_from)) by {
                                    if before.linked(next_cell, joined_from) {
                                        assert(before.linked(joined_from, next_cell));
                                    }
                                }
                                lemma_links_total_update2(
                                    before.nodes@,
                                    self.nodes@,
                                    joined_from.0 as int,
                                    next_cell.0 as int,
                                    n as int,
                                );
                                assert forall|a: NodeId, b: NodeId|
                                    #[trigger] self.linked(a, b)
                                    implies self.linked(b, a) by {
                                    if before.linked(a, b) {
                                        assert(before.linked(b, a));
                                    }
                                }
                            }
                        }
                        walls = self.unvisited_walls_of(&visited, current_cell);
                    }
                },
                FrontierSearchResult::NoFrontier => {
                    proof {
                        if fresh {
                            assert forall|i: int| 0 <= i < n implies visited@[i] by {
                                if !visited@[i] {
                                    let target = NodeId(i as usize);
                                    assert(initial.adj_reach(first, target));
                                    let m = choose|m: nat|
                                        #[trigger] initial.adj_steps(first, target, m);
                                    lemma_boundary_edge(initial, visited@, first, target, m);
                                    let edge = choose|x: NodeId, y: NodeId|
                                        x.0 < initial.nodes@.len()
                                        && y.0 < initial.nodes@.len()
                                        && visited@[x.0 as int] && !visited@[y.0 as int]
                                        && #[trigger] initial.adj_touches(x, y);
                                    let x = edge.0;
                                    let y = edge.1;
                                    // Adjacency never changed, and the
                                    // unvisited side has no links, so this
                                    // is a wall into the visited region.
                                    assert(self.nodes@[x.0 as int].adjacencies@
                                        == initial.nodes@[x.0 as int].adjacencies@);
                                    assert(self.nodes@[y.0 as int].adjacencies@
                                        == initial.nodes@[y.0 as int].adjacencies@);
                                    assert(self.adjacent(x, y) || self.adjacent(y, x));
                                    assert(self.adjacent(y, x));
                                    assert(!self.linked(y, x)) by {
                                        if self.linked(y, x) {
                                            let links = self.nodes@[y.0 as int].links@;
                                            let q = choose|q: int|
                                                0 <= q < links.len() && links[q] == x;
                                            assert(false);
                                        }
                                    }
                                    assert(!visited@[x.0 as int]);
                                    assert(false);
                                }
                            }
                            assert forall|a: NodeId, b: NodeId|
                                self.valid(a) && self.valid(b)
                                implies #[trigger] self.link_reach(a, b) by {
                                assert(visited@[a.0 as int]);
                                assert(visited@[b.0 as int]);
                                assert(NodeId(a.0 as int as usize) == a);
                                assert(NodeId(b.0 as int as usize) == b);
                                self.lemma_link_reach_trans(a, first, b);
                            }
                            lemma_marked_full(visited@, n as int);
                        }
                    }
                    break;
                },
            }
        }
    }
}

/// After carving a passage from a newly visited node into the visited
/// region, everything marked visited (the new node included) can still
/// reach the anchor node through passages, both ways.
pub(crate) proof fn lemma_reach_after_joining<T>(
    pre: Pool<T>,
    post: Pool<T>,
    visited_before: Seq<bool>,
    anchor: NodeId,
    inside: NodeId,
    joined: NodeId,
    n: int,
)
    requires
        n == pre.nodes@.len(),
        post.nodes@.len() == pre.nodes@.len(),
        visited_before.len() == n,
        inside.0 < n,
        joined.0 < n,
        visited_before[inside.0 as int],
        forall|x: NodeId, y: NodeId| #[trigger] pre.linked(x, y) ==> post.linked(x, y),
        post.linked(inside, joined),
        post.linked(joined, inside),
        forall|i: int| 0 <= i < n && #[trigger] visited_before[i]
            ==> pre.link_reach(anchor, NodeId(i as usize))
                && pre.link_reach(NodeId(i as usize), anchor),
    ensures
        forall|i: int| 0 <= i < n
            && (#[trigger] visited_before.update(joined.0 as int, true)[i])
            ==> post.link_reach(anchor, NodeId(i as usize))
                && post.link_reach(NodeId(i as usize), anchor),
{
    assert(pre.link_reach(anchor, inside) && pre.link_reach(inside, anchor));
    pre.lemma_link_reach_mono(post, anchor, inside);
    pre.lemma_link_reach_mono(post, inside, anchor);
    assert(post.link_steps(inside, inside, 0));
    assert(post.link_steps(inside, joined, 1));
    assert(post.link_steps(joined, joined, 0));
    assert(post.link_steps(joined, inside, 1));
    assert(post.link_reach(inside, joined) && post.link_reach(joined, inside));
    post.lemma_link_reach_trans(anchor, inside, joined);
    post.lemma_link_reach_trans(joined, inside, anchor);
    assert forall|i: int| 0 <= i < n
        && (#[trigger] visited_before.update(joined.0 as int, true)[i])
        implies post.link_reach(anchor, NodeId(i as usize))
            && post.link_reach(NodeId(i as usize), anchor) by {
        if i != joined.0 as int {
            assert(visited_before[i]);
            pre.lemma_link_reach_mono(post, anchor, NodeId(i as usize));
            pre.lemma_link_reach_mono(post, NodeId(i as usize), anchor);
        } else {
            assert(NodeId(i as usize) == joined);
        }
    }
}

/// An all-false bitmap has a zero count.
pub proof fn lemma_marked_of_clear(v: Seq<bool>, k: int)
    requires
        0 <= k <= v.len(),
        forall|j: int| 0 <= j < v.len() ==> !(#[trigger] v[j]),
    ensures
        marked_to(v, k) == 0,
    decreases k,
{
    if k > 0 {
        lemma_marked_of_clear(v, k - 1);
    }
}

/// A full count means every node below `k` is isolated.
proof fn lemma_isolated_all<T>(nodes: Seq<Node<T>>, j: int, k: int)
    requires
        isolated_to(nodes, k) == k,
        0 <= j < k,
    ensures
        nodes[j].links@.len() == 0,
    decreases k,
{
    lemma_isolated_nonneg(nodes, k - 1);
    if k > 0 {
        assert(isolated_to(nodes, k - 1) <= k - 1) by {
            lemma_isolated_le(nodes, k - 1);
        }
        if j < k - 1 {
            lemma_isolated_all(nodes, j, k - 1);
        }
    }
}

/// The isolated count never exceeds the window.
proof fn lemma_isolated_le<T>(nodes: Seq<Node<T>>, k: int)
    requires
        0 <= k,
    ensures
        isolated_to(nodes, k) <= k,
    decreases k,
{
    if k > 0 {
        lemma_isolated_le(nodes, k - 1);
    }
}

/// Two distinct isolated nodes below `k` push the count to two.
proof fn lemma_isolated_two<T>(nodes: Seq<Node<T>>, j1: int, j2: int, k: int)
    requires
        0 <= j1 < k,
        0 <= j2 < k,
        j1 != j2,
        nodes[j1].links@.len() == 0,
        nodes[j2].links@.len() == 0,
    ensures
        isolated_to(nodes, k) >= 2,
    decreases k,
{
    if j1 == k - 1 {
        lemma_isolated_pos(nodes, j2, k - 1);
    } else if j2 == k - 1 {
        lemma_isolated_pos(nodes, j1, k - 1);
    } else {
        lemma_isolated_two(nodes, j1, j2, k - 1);
        lemma_isolated_nonneg(nodes, k);
    }
}

/// The distance a node counts for when hunting the farthest one: infinite
/// distances count as zero.
pub open spec fn finite_key(d: Distance) -> int {
    match d {
        Distance::Finite(n) => n as int,
        Distance::Infinite => 0,
    }
}

/// The node whose distance payload is the largest finite one, infinities
/// counting as zero; the last such node wins ties.
fn max_finite_distance_node(distances: &Distances) -> (r: NodeId)
    requires
        distances.pool.wf(),
        distances.pool.nodes@.len() > 0,
    ensures
        r.0 < distances.pool.nodes@.len(),
        forall|i: int| 0 <= i < distances.pool.nodes@.len()
            ==> finite_key((#[trigger] distances.pool.nodes@[i]).payload)
                <= finite_key(distances.pool.nodes@[r.0 as int].payload),
        // Ties go to the last candidate scanned.
        forall|i: int| r.0 < i < distances.pool.nodes@.len()
            ==> finite_key((#[trigger] distances.pool.nodes@[i]).payload)
                < finite_key(distances.pool.nodes@[r.0 as int].payload),
{
    let n = distances.pool.nodes.len();
    let mut best: usize = 0;
    let mut best_key: usize = match distances.pool.nodes[0].payload {
        Distance::Finite(d) => d,
        Distance::Infinite => 0,
    };
    let mut i: usize = 1;
    while i < n
        invariant
            n == distances.pool.nodes@.len(),
            n > 0,
            1 <= i <= n,
            best < n,
            best_key == finite_key(distances.pool.nodes@[best as int].payload),
            forall|k: int| 0 <= k < i
                ==> finite_key((#[trigger] distances.pool.nodes@[k]).payload)
                    <= best_key,
            forall|k: int| best < k < i
                ==> finite_key((#[trigger] distances.pool.nodes@[k]).payload) < best_key,
        decreases n - i,
    {
        let key: usize = match distances.pool.nodes[i].payload {
            Distance::Finite(d) => d,
            Distance::Infinite => 0,
        };
        if key >= best_key {
            best = i;
            best_key = key;
        }
        i += 1;
    }
    proof {
        assert(distances.pool.node_ok(best as int));
    }
    distances.pool.nodes[best].id
}

/// A scratch pad built over a pool carries the same link relation.
proof fn lemma_pad_links_match<T>(p: Pool<T>, pad_pool: Pool<Option<Distance>>)
    requires
        pad_pool.nodes@.len() == p.nodes@.len(),
        forall|i: int| 0 <= i < p.nodes@.len()
            ==> (#[trigger] pad_pool.nodes@[i]).links@ == p.nodes@[i].links@,
    ensures
        forall|x: NodeId, y: NodeId| #[trigger] pad_pool.linked(x, y) == p.linked(x, y),
{
    assert forall|x: NodeId, y: NodeId|
        #[trigger] pad_pool.linked(x, y) == p.linked(x, y) by {
        if x.0 < p.nodes@.len() {
            assert(pad_pool.nodes@[x.0 as int].links@ == p.nodes@[x.0 as int].links@);
        }
    }
}

/// The node a max scan picks over a distance snapshot maximizes the exact
/// link distance from the snapshot's source, with ties going to the
/// highest id.
proof fn lemma_furthest_scan<T>(
    p: Pool<T>,
    source: NodeId,
    distances: Distances,
    picked: NodeId,
)
    requires
        distances.pool.nodes@.len() == p.nodes@.len(),
        picked.0 < distances.pool.nodes@.len(),
        forall|i: int| 0 <= i < distances.pool.nodes@.len()
            ==> is_link_dist(p, source, NodeId(i as usize),
                (#[trigger] distances.pool.nodes@[i]).payload),
        forall|i: int| 0 <= i < distances.pool.nodes@.len()
            ==> finite_key((#[trigger] distances.pool.nodes@[i]).payload)
                <= finite_key(distances.pool.nodes@[picked.0 as int].payload),
        forall|i: int| picked.0 < i < distances.pool.nodes@.len()
            ==> finite_key((#[trigger] distances.pool.nodes@[i]).payload)
                < finite_key(distances.pool.nodes@[picked.0 as int].payload),
    ensures
        forall|i: int, di: Distance, dp: Distance|
            0 <= i < p.nodes@.len()
            && #[trigger] is_link_dist(p, source, NodeId(i as usize), di)
            && #[trigger] is_link_dist(p, source, picked, dp)
            ==> finite_key(di) <= finite_key(dp)
                && (i > picked.0 as int ==> finite_key(di) < finite_key(dp)),
{
    assert forall|i: int, di: Distance, dp: Distance|
        0 <= i < p.nodes@.len()
        && #[trigger] is_link_dist(p, source, NodeId(i as usize), di)
        && #[trigger] is_link_dist(p, source, picked, dp)
        implies finite_key(di) <= finite_key(dp)
            && (i > picked.0 as int ==> finite_key(di) < finite_key(dp)) by {
        assert(NodeId(picked.0 as int as usize) == picked);
        lemma_link_dist_unique(
            p, source, NodeId(i as usize), di, distances.pool.nodes@[i].payload);
        lemma_link_dist_unique(
            p, source, picked, dp, distances.pool.nodes@[picked.0 as int].payload);
    }
}

// ------------------------------------------------------------------
// The connectivity checker: union-find over the adjacency relation,
// through the `partitions` crate.
// ------------------------------------------------------------------

#[verifier::external_type_specification]
#[verifier::external_body]
#[verifier::reject_recursive_types(T)]
pub struct ExPartitionVec<T>(partitions::PartitionVec<T>);

/// The partition a `PartitionVec` currently holds, as the set of pairs of
/// element indices that lie in the same set.
pub uninterp spec fn union_find_rel(pv: partitions::PartitionVec<()>) -> Set<(int, int)>;

/// How many elements a `PartitionVec` currently holds.
pub uninterp spec fn union_find_len(pv: partitions::PartitionVec<()>) -> int;

/// Relies on PartitionVec::new: an empty collection holds no elements and
/// partitions nothing.
#[verifier::external_body]
fn uf_new() -> (r: partitions::PartitionVec<()>)
    ensures
        union_find_len(r) == 0,
        forall|a: int, b: int| !#[trigger] union_find_rel(r).contains((a, b)),
{
    partitions::PartitionVec::new()
}

/// Relies on PartitionVec::push: the new element is appended and forms a
/// singleton set of its own.
#[verifier::external_body]
fn uf_push(pv: &mut partitions::PartitionVec<()>)
    ensures
        union_find_len(*final(pv)) == union_find_len(*old(pv)) + 1,
        forall|a: int, b: int| #[trigger] union_find_rel(*final(pv)).contains((a, b))
            <==> (union_find_rel(*old(pv)).contains((a, b))
                || (a == union_find_len(*old(pv)) && b == union_find_len(*old(pv)))),
{
    pv.push(());
}

/// Relies on PartitionVec::union: the sets of the two elements are merged
/// and nothing else changes. Both indices must be in bounds, since union
/// panics otherwise.
#[verifier::external_body]
fn uf_union(pv: &mut partitions::PartitionVec<()>, i: usize, j: usize)
    requires
        i < union_find_len(*old(pv)),
        j < union_find_len(*old(pv)),
    ensures
        union_find_len(*final(pv)) == union_find_len(*old(pv)),
        forall|a: int, b: int| #[trigger] union_find_rel(*final(pv)).contains((a, b))
            <==> (union_find_rel(*old(pv)).contains((a, b))
                || (union_find_rel(*old(pv)).contains((a, i as int))
                    && union_find_rel(*old(pv)).contains((b, j as int)))
                || (union_find_rel(*old(pv)).contains((a, j as int))
                    && union_find_rel(*old(pv)).contains((b, i as int)))),
{
    pv.union(i, j);
}

/// Relies on PartitionVec::amount_of_sets: the number of disjoint sets. It
/// is one exactly when there are elements and they all share one set.
#[verifier::external_body]
fn uf_amount_of_sets(pv: &partitions::PartitionVec<()>) -> (r: usize)
    ensures
        (r == 1) <==> (union_find_len(*pv) > 0 && forall|a: int, b: int|
            0 <= a < union_find_len(*pv) && 0 <= b < union_find_len(*pv)
            ==> #[trigger] union_find_rel(*pv).contains((a, b))),
{
    pv.amount_of_sets()
}

/// A relation that is reflexive, symmetric, transitive and closed over the
/// one-step adjacency of `p` swallows every adjacency walk of `p`.
proof fn lemma_closure_covers_walks<T>(
    p: Pool<T>,
    rel: Set<(int, int)>,
    a: NodeId,
    b: NodeId,
    m: nat,
)
    requires
        p.wf(),
        forall|x: int| 0 <= x < p.nodes@.len() ==> #[trigger] rel.contains((x, x)),
        forall|x: int, y: int| #[trigger] rel.contains((x, y)) ==> rel.contains((y, x)),
        forall|x: int, y: int, z: int|
            #[trigger] rel.contains((x, y)) && #[trigger] rel.contains((y, z))
            ==> rel.contains((x, z)),
        forall|x: NodeId, y: NodeId| #[trigger] p.adjacent(x, y)
            ==> rel.contains((x.0 as int, y.0 as int)),
        p.adj_steps(a, b, m),
    ensures
        rel.contains((a.0 as int, b.0 as int)),
    decreases m,
{
    if m == 0 {
    } else {
        let mid = choose|mid: NodeId|
            p.adj_steps(a, mid, (m - 1) as nat) && p.valid(b)
            && #[trigger] p.adj_touches(mid, b);
        lemma_closure_covers_walks(p, rel, a, mid, (m - 1) as nat);
        if p.adjacent(mid, b) {
            assert(rel.contains((mid.0 as int, b.0 as int)));
        } else {
            assert(p.adjacent(b, mid));
            assert(rel.contains((b.0 as int, mid.0 as int)));
            assert(rel.contains((mid.0 as int, b.0 as int)));
        }
    }
}

/// A walk from inside a region to outside it must cross the boundary: some
/// node inside touches some node outside.
pub(crate) proof fn lemma_boundary_edge<T>(p: Pool<T>, visited: Seq<bool>, a: NodeId, b: NodeId, m: nat)
    requires
        visited.len() == p.nodes@.len(),
        a.0 < p.nodes@.len(),
        visited[a.0 as int],
        b.0 < p.nodes@.len(),
        !visited[b.0 as int],
        p.adj_steps(a, b, m),
    ensures
        exists|x: NodeId, y: NodeId|
            x.0 < p.nodes@.len() && y.0 < p.nodes@.len()
            && visited[x.0 as int] && !visited[y.0 as int] && #[trigger] p.adj_touches(x, y),
    decreases m,
{
    if m == 0 {
        assert(false);
    } else {
        let mid = choose|mid: NodeId|
            p.adj_steps(a, mid, (m - 1) as nat) && p.valid(b)
            && #[trigger] p.adj_touches(mid, b);
        p.lemma_adj_steps_valid(a, mid, (m - 1) as nat);
        if visited[mid.0 as int] {
            assert(p.adj_touches(mid, b));
        } else {
            lemma_boundary_edge(p, visited, a, mid, (m - 1) as nat);
        }
    }
}

impl<T> Pool<T> {
    /// Checks whether the adjacency graph is a single connected region:
    /// union-find over every declared adjacency, connected exactly when one
    /// set remains. A pool of no nodes counts as connected, as does a pool
    /// of one.
    pub fn is_adjacently_connected(&self) -> (r: bool)
        requires
            self.wf(),
        ensures
            r == self.adj_connected(),
    {
        let n = self.nodes.len();
        let mut nodes_partitions = uf_new();
        let mut c: usize = 0;
        while c < n
            invariant
                c <= n,
                union_find_len(nodes_partitions) == c,
                forall|a: int, b: int|
                    #[trigger] union_find_rel(nodes_partitions).contains((a, b))
                    <==> (0 <= a < c && a == b),
            decreases n - c,
        {
            let ghost pv0 = nodes_partitions;
            uf_push(&mut nodes_partitions);
            proof {
                assert forall|a: int, b: int|
                    #[trigger] union_find_rel(nodes_partitions).contains((a, b))
                    <==> (0 <= a < c + 1 && a == b) by {
                    assert(union_find_rel(nodes_partitions).contains((a, b))
                        <==> (union_find_rel(pv0).contains((a, b))
                            || (a == c && b == c)));
                }
            }
            c += 1;
        }

        proof {
            assert forall|a: int, b: int|
                #[trigger] union_find_rel(nodes_partitions).contains((a, b))
                implies self.adj_reach(NodeId(a as usize), NodeId(b as usize)) by {
                assert(0 <= a < n && a == b);
                self.lemma_adj_reach_refl(NodeId(a as usize));
            }
        }
        let mut i: usize = 0;
        while i < n
            invariant
                self.wf(),
                n == self.nodes@.len(),
                i <= n,
                union_find_len(nodes_partitions) == n,
                // The relation stays an equivalence over [0, n).
                forall|a: int, b: int|
                    #[trigger] union_find_rel(nodes_partitions).contains((a, b))
                    ==> 0 <= a < n && 0 <= b < n,
                forall|a: int| 0 <= a < n
                    ==> #[trigger] union_find_rel(nodes_partitions).contains((a, a)),
                forall|a: int, b: int|
                    #[trigger] union_find_rel(nodes_partitions).contains((a, b))
                    ==> union_find_rel(nodes_partitions).contains((b, a)),
                forall|a: int, b: int, c2: int|
                    #[trigger] union_find_rel(nodes_partitions).contains((a, b))
                    && #[trigger] union_find_rel(nodes_partitions).contains((b, c2))
                    ==> union_find_rel(nodes_partitions).contains((a, c2)),
                // Everything related is mutually reachable.
                forall|a: int, b: int|
                    #[trigger] union_find_rel(nodes_partitions).contains((a, b))
                    ==> self.adj_reach(NodeId(a as usize), NodeId(b as usize)),
                // Every edge of a processed node is already related.
                forall|x: NodeId, y: NodeId|
                    x.0 < i && #[trigger] self.adjacent(x, y)
                    ==> union_find_rel(nodes_partitions).contains((x.0 as int, y.0 as int)),
            decreases n - i,
        {
            let ghost here = NodeId(i);
            let neighbor_count = self.nodes[i].adjacencies.len();
            let mut j: usize = 0;
            while j < neighbor_count
                invariant
                    self.wf(),
                    n == self.nodes@.len(),
                    i < n,
                    here == NodeId(i),
                    neighbor_count == self.nodes@[i as int].adjacencies@.len(),
                    j <= neighbor_count,
                    union_find_len(nodes_partitions) == n,
                    forall|a: int, b: int|
                        #[trigger] union_find_rel(nodes_partitions).contains((a, b))
                        ==> 0 <= a < n && 0 <= b < n,
                    forall|a: int| 0 <= a < n
                        ==> #[trigger] union_find_rel(nodes_partitions).contains((a, a)),
                    forall|a: int, b: int|
                        #[trigger] union_find_rel(nodes_partitions).contains((a, b))
                        ==> union_find_rel(nodes_partitions).contains((b, a)),
                    forall|a: int, b: int, c2: int|
                        #[trigger] union_find_rel(nodes_partitions).contains((a, b))
                        && #[trigger] union_find_rel(nodes_partitions).contains((b, c2))
                        ==> union_find_rel(nodes_partitions).contains((a, c2)),
                    forall|a: int, b: int|
                        #[trigger] union_find_rel(nodes_partitions).contains((a, b))
                        ==> self.adj_reach(NodeId(a as usize), NodeId(b as usize)),
                    forall|x: NodeId, y: NodeId|
                        x.0 < i && #[trigger] self.adjacent(x, y)
                        ==> union_find_rel(nodes_partitions).contains(
                            (x.0 as int, y.0 as int)),
                    forall|k: int| 0 <= k < j
                        ==> union_find_rel(nodes_partitions).contains(
                            (i as int,
                             (#[trigger] self.nodes@[i as int].adjacencies@[k]).0 as int)),
                decreases neighbor_count - j,
            {
                let neighbor = self.nodes[i].adjacencies[j];
                proof {
                    assert(self.node_ok(i as int));
                    assert(self.nodes@[i as int].adjacencies@.contains(
                        self.nodes@[i as int].adjacencies@[j as int]));
                    assert(neighbor.0 < n);
                    assert(self.adjacent(here, neighbor));
                }
                let ghost pv0 = nodes_partitions;
                let ghost rel0 = union_find_rel(pv0);
                uf_union(&mut nodes_partitions, i, neighbor.0);
                proof {
                    let reln = union_find_rel(nodes_partitions);
                    let ii = i as int;
                    let jj = neighbor.0 as int;
                    // The merged relation stays an equivalence.
                    assert forall|a: int, b: int| #[trigger] reln.contains((a, b))
                        implies reln.contains((b, a)) by {
                        assert(reln.contains((a, b)) <==> (rel0.contains((a, b))
                            || (rel0.contains((a, ii)) && rel0.contains((b, jj)))
                            || (rel0.contains((a, jj)) && rel0.contains((b, ii)))));
                        assert(reln.contains((b, a)) <==> (rel0.contains((b, a))
                            || (rel0.contains((b, ii)) && rel0.contains((a, jj)))
                            || (rel0.contains((b, jj)) && rel0.contains((a, ii)))));
                    }
                    assert forall|a: int, b: int, c2: int|
                        #[trigger] reln.contains((a, b)) && #[trigger] reln.contains((b, c2))
                        implies reln.contains((a, c2)) by {
                        assert(reln.contains((a, b)) <==> (rel0.contains((a, b))
                            || (rel0.contains((a, ii)) && rel0.contains((b, jj)))
                            || (rel0.contains((a, jj)) && rel0.contains((b, ii)))));
                        assert(reln.contains((b, c2)) <==> (rel0.contains((b, c2))
                            || (rel0.contains((b, ii)) && rel0.contains((c2, jj)))
                            || (rel0.contains((b, jj)) && rel0.contains((c2, ii)))));
                        assert(reln.contains((a, c2)) <==> (rel0.contains((a, c2))
                            || (rel0.contains((a, ii)) && rel0.contains((c2, jj)))
                            || (rel0.contains((a, jj)) && rel0.contains((c2, ii)))));
                    }
                    // Everything newly related is reachable: the two merged
                    // classes are bridged by the adjacency just processed.
                    assert forall|a: int, b: int| #[trigger] reln.contains((a, b))
                        implies self.adj_reach(NodeId(a as usize), NodeId(b as usize)) by {
                        assert(reln.contains((a, b)) <==> (rel0.contains((a, b))
                            || (rel0.contains((a, ii)) && rel0.contains((b, jj)))
                            || (rel0.contains((a, jj)) && rel0.contains((b, ii)))));
                        if !rel0.contains((a, b)) {
                            assert(self.adjacent(here, neighbor));
                            assert(self.adj_touches(here, neighbor));
                            assert(self.adj_steps(here, here, 0));
                            assert(self.adj_steps(here, neighbor, 1));
                            assert(self.adj_reach(here, neighbor));
                            if rel0.contains((a, ii)) && rel0.contains((b, jj)) {
                                assert(self.adj_reach(NodeId(a as usize), here));
                                assert(self.adj_reach(NodeId(b as usize), neighbor));
                                self.lemma_adj_reach_sym(NodeId(b as usize), neighbor);
                                self.lemma_adj_reach_trans(NodeId(a as usize), here, neighbor);
                                self.lemma_adj_reach_trans(
                                    NodeId(a as usize), neighbor, NodeId(b as usize));
                            } else {
                                assert(rel0.contains((a, jj)) && rel0.contains((b, ii)));
                                assert(self.adj_reach(NodeId(a as usize), neighbor));
                                assert(self.adj_reach(NodeId(b as usize), here));
                                self.lemma_adj_reach_sym(here, neighbor);
                                self.lemma_adj_reach_sym(NodeId(b as usize), here);
                                self.lemma_adj_reach_trans(NodeId(a as usize), neighbor, here);
                                self.lemma_adj_reach_trans(
                                    NodeId(a as usize), here, NodeId(b as usize));
                            }
                        }
                    }
                    // The fresh edge itself is now related.
                    assert(reln.contains((ii, jj))) by {
                        assert(rel0.contains((ii, ii)) && rel0.contains((jj, jj)));
                    }
                    assert forall|k: int| 0 <= k < j + 1
                        implies reln.contains(
                            (i as int,
                             (#[trigger] self.nodes@[i as int].adjacencies@[k]).0 as int)) by {
                        if k < j {
                            assert(rel0.contains(
                                (i as int, self.nodes@[i as int].adjacencies@[k].0 as int)));
                        }
                    }
                }
                j += 1;
            }
            proof {
                assert forall|x: NodeId, y: NodeId|
                    x.0 < i + 1 && #[trigger] self.adjacent(x, y)
                    implies union_find_rel(nodes_partitions).contains(
                        (x.0 as int, y.0 as int)) by {
                    if x.0 == i {
                        assert(x == here);
                        let k = choose|k: int|
                            0 <= k < self.nodes@[i as int].adjacencies@.len()
                            && self.nodes@[i as int].adjacencies@[k] == y;
                        assert(union_find_rel(nodes_partitions).contains(
                            (i as int, self.nodes@[i as int].adjacencies@[k].0 as int)));
                    }
                }
            }
            i += 1;
        }

        let connected = self.nodes.len() == 0 || uf_amount_of_sets(&nodes_partitions) == 1;
        proof {
            let rel = union_find_rel(nodes_partitions);
            if connected {
                assert forall|a: NodeId, b: NodeId|
                    self.valid(a) && self.valid(b) implies #[trigger] self.adj_reach(a, b) by {
                    assert(rel.contains((a.0 as int, b.0 as int)));
                    assert(NodeId(a.0 as int as usize) == a);
                    assert(NodeId(b.0 as int as usize) == b);
                }
            } else {
                assert(n > 0);
                assert(!(forall|a: int, b: int| 0 <= a < n && 0 <= b < n
                    ==> #[trigger] rel.contains((a, b))));
                let (a, b) = choose|a: int, b: int|
                    0 <= a < n && 0 <= b < n && !#[trigger] rel.contains((a, b));
                if self.adj_connected() {
                    assert(self.adj_reach(NodeId(a as usize), NodeId(b as usize)));
                    let m = choose|m: nat|
                        #[trigger] self.adj_steps(NodeId(a as usize), NodeId(b as usize), m);
                    lemma_closure_covers_walks(
                        *self, rel, NodeId(a as usize), NodeId(b as usize), m);
                    assert(false);
                }
            }
        }
        connected
    }

    /// A pool of zero or one nodes is adjacently connected.
    ///
    /// The first connectivity guarantee of the union-find layer.
    pub proof fn lemma_tiny_pool_connected(self)
        requires
            self.nodes@.len() <= 1,
        ensures
            self.adj_connected(),
    {
        assert forall|a: NodeId, b: NodeId|
            self.valid(a) && self.valid(b) implies #[trigger] self.adj_reach(a, b) by {
            assert(a.0 == 0 && b.0 == 0);
            assert(a == b);
            assert(self.adj_steps(a, b, 0));
        }
    }

    /// With no adjacencies declared anywhere, nothing is reachable from
    /// anything but itself.
    pub proof fn lemma_no_edges_no_reach(self, a: NodeId, b: NodeId, m: nat)
        requires
            forall|i: int| 0 <= i < self.nodes@.len()
                ==> (#[trigger] self.nodes@[i]).adjacencies@.len() == 0,
            self.adj_steps(a, b, m),
        ensures
            a == b,
        decreases m,
    {
        if m > 0 {
            let mid = choose|mid: NodeId|
                self.adj_steps(a, mid, (m - 1) as nat) && self.valid(b)
                && #[trigger] self.adj_touches(mid, b);
            if self.adjacent(mid, b) {
                assert(self.nodes@[mid.0 as int].adjacencies@.contains(b));
                let k = choose|k: int|
                    0 <= k < self.nodes@[mid.0 as int].adjacencies@.len()
                    && self.nodes@[mid.0 as int].adjacencies@[k] == b;
                assert(false);
            } else {
                assert(self.adjacent(b, mid));
                let k = choose|k: int|
                    0 <= k < self.nodes@[b.0 as int].adjacencies@.len()
                    && self.nodes@[b.0 as int].adjacencies@[k] == mid;
                assert(false);
            }
        }
    }

    /// Two nodes with no adjacency declared between them are not
    /// connected.
    ///
    /// The second connectivity guarantee of the union-find layer.
    pub proof fn lemma_unrelated_pair_not_connected(self)
        requires
            self.nodes@.len() == 2,
            forall|i: int| 0 <= i < self.nodes@.len()
                ==> (#[trigger] self.nodes@[i]).adjacencies@.len() == 0,
        ensures
            !self.adj_connected(),
    {
        let a = NodeId(0);
        let b = NodeId(1);
        if self.adj_connected() {
            assert(self.adj_reach(a, b));
            let m = choose|m: nat| #[trigger] self.adj_steps(a, b, m);
            self.lemma_no_edges_no_reach(a, b, m);
            assert(false);
        }
    }

    /// After declaring an adjacency between the two nodes of a two-node
    /// pool, the pool is connected.
    ///
    /// The third connectivity guarantee of the union-find layer.
    pub proof fn lemma_adjacent_pair_connected(self, a: NodeId, b: NodeId)
        requires
            self.nodes@.len() == 2,
            a != b,
            self.valid(a),
            self.valid(b),
            self.adjacent(a, b) || self.adjacent(b, a),
        ensures
            self.adj_connected(),
    {
        assert(self.adj_touches(a, b) && self.adj_touches(b, a));
        assert(self.adj_steps(a, a, 0));
        assert(self.adj_steps(b, b, 0));
        assert(self.adj_steps(a, b, 1));
        assert(self.adj_steps(b, a, 1));
        assert forall|x: NodeId, y: NodeId|
            self.valid(x) && self.valid(y) implies #[trigger] self.adj_reach(x, y) by {
            assert(x == a || x == b);
            assert(y == a || y == b);
            if x == y {
                assert(self.adj_steps(x, y, 0));
            }
        }
    }
}

// ------------------------------------------------------------------
// Reachability lemmas shared by the distance engine, the generation
// algorithms and the connectivity checker.
// ------------------------------------------------------------------

impl<T> Pool<T> {
    /// A walk can be extended by a walk.
    pub proof fn lemma_adj_steps_trans(self, a: NodeId, b: NodeId, c: NodeId, m: nat, n: nat)
        requires
            self.adj_steps(a, b, m),
            self.adj_steps(b, c, n),
        ensures
            self.adj_steps(a, c, m + n),
        decreases n,
    {
        if n == 0 {
        } else {
            let mid = choose|mid: NodeId|
                self.adj_steps(b, mid, (n - 1) as nat) && self.valid(c)
                && #[trigger] self.adj_touches(mid, c);
            self.lemma_adj_steps_trans(a, b, mid, m, (n - 1) as nat);
            assert(self.adj_steps(a, c, (m + n - 1) as nat + 1));
        }
    }

    /// Walks through the undirected adjacency relation can be reversed.
    pub proof fn lemma_adj_steps_sym(self, a: NodeId, b: NodeId, n: nat)
        requires
            self.adj_steps(a, b, n),
        ensures
            self.adj_steps(b, a, n),
        decreases n,
    {
        if n == 0 {
        } else {
            let mid = choose|mid: NodeId|
                self.adj_steps(a, mid, (n - 1) as nat) && self.valid(b)
                && #[trigger] self.adj_touches(mid, b);
            self.lemma_adj_steps_sym(a, mid, (n - 1) as nat);
            assert(self.valid(mid)) by {
                if n - 1 == 0 {
                } else {
                }
            }
            assert(self.adj_steps(b, mid, 1)) by {
                assert(self.adj_steps(b, b, 0));
                assert(self.adj_touches(b, mid));
            }
            self.lemma_adj_steps_trans(b, mid, a, 1, (n - 1) as nat);
        }
    }

    /// Adjacency reachability is reflexive on valid nodes.
    pub proof fn lemma_adj_reach_refl(self, a: NodeId)
        requires
            self.valid(a),
        ensures
            self.adj_reach(a, a),
    {
        assert(self.adj_steps(a, a, 0));
    }

    /// Adjacency reachability is symmetric.
    pub proof fn lemma_adj_reach_sym(self, a: NodeId, b: NodeId)
        requires
            self.adj_reach(a, b),
        ensures
            self.adj_reach(b, a),
    {
        let n = choose|n: nat| self.adj_steps(a, b, n);
        self.lemma_adj_steps_sym(a, b, n);
    }

    /// Adjacency reachability is transitive.
    pub proof fn lemma_adj_reach_trans(self, a: NodeId, b: NodeId, c: NodeId)
        requires
            self.adj_reach(a, b),
            self.adj_reach(b, c),
        ensures
            self.adj_reach(a, c),
    {
        let m = choose|m: nat| self.adj_steps(a, b, m);
        let n = choose|n: nat| self.adj_steps(b, c, n);
        self.lemma_adj_steps_trans(a, b, c, m, n);
    }

    /// On a symmetric adjacency graph, a walk that leaves its start gives
    /// the start at least one neighbor.
    pub proof fn lemma_reach_gives_edge(self, a: NodeId, b: NodeId, m: nat)
        requires
            self.adj_symmetric(),
            self.adj_steps(a, b, m),
            a != b,
        ensures
            exists|y: NodeId| #[trigger] self.adjacent(a, y),
        decreases m,
    {
        if m == 0 {
            assert(false);
        } else {
            let mid = choose|mid: NodeId|
                self.adj_steps(a, mid, (m - 1) as nat) && self.valid(b)
                && #[trigger] self.adj_touches(mid, b);
            if mid == a {
                if self.adjacent(a, b) {
                } else {
                    assert(self.adjacent(b, a));
                    assert(self.adjacent(a, b));
                }
            } else {
                self.lemma_reach_gives_edge(a, mid, (m - 1) as nat);
            }
        }
    }

    /// On a connected, symmetric adjacency graph with at least two nodes,
    /// every node has a neighbor.
    pub proof fn lemma_connected_no_dead_ends(self)
        requires
            self.wf(),
            self.adj_symmetric(),
            self.adj_connected(),
            self.nodes@.len() >= 2,
        ensures
            self.no_dead_ends(),
    {
        assert forall|i: int| 0 <= i < self.nodes@.len()
            implies (#[trigger] self.nodes@[i]).adjacencies@.len() > 0 by {
            vstd::std_specs::vec::axiom_spec_len(&self.nodes);
            let a = NodeId(i as usize);
            let other = if i == 0 {
                NodeId(1usize)
            } else {
                NodeId(0usize)
            };
            assert(self.valid(a) && self.valid(other) && a != other);
            assert(self.adj_reach(a, other));
            let m = choose|m: nat| #[trigger] self.adj_steps(a, other, m);
            self.lemma_reach_gives_edge(a, other, m);
            let y = choose|y: NodeId| #[trigger] self.adjacent(a, y);
            let k = choose|k: int|
                0 <= k < self.nodes@[i].adjacencies@.len()
                && self.nodes@[i].adjacencies@[k] == y;
        }
    }

    /// Both endpoints of a walk are valid nodes.
    pub proof fn lemma_adj_steps_valid(self, a: NodeId, b: NodeId, n: nat)
        requires
            self.adj_steps(a, b, n),
        ensures
            self.valid(a),
            self.valid(b),
        decreases n,
    {
        if n == 0 {
        } else {
            let mid = choose|mid: NodeId|
                self.adj_steps(a, mid, (n - 1) as nat) && self.valid(b)
                && #[trigger] self.adj_touches(mid, b);
            self.lemma_adj_steps_valid(a, mid, (n - 1) as nat);
        }
    }

    /// Both endpoints of a link walk are valid nodes.
    pub proof fn lemma_link_steps_valid(self, a: NodeId, b: NodeId, n: nat)
        requires
            self.link_steps(a, b, n),
        ensures
            self.valid(a),
            self.valid(b),
        decreases n,
    {
        if n == 0 {
        } else {
            let mid = choose|mid: NodeId|
                self.link_steps(a, mid, (n - 1) as nat) && self.valid(b)
                && #[trigger] self.linked(mid, b);
            self.lemma_link_steps_valid(a, mid, (n - 1) as nat);
        }
    }

    /// A link walk can be extended by a link walk.
    pub proof fn lemma_link_steps_trans(self, a: NodeId, b: NodeId, c: NodeId, m: nat, n: nat)
        requires
            self.link_steps(a, b, m),
            self.link_steps(b, c, n),
        ensures
            self.link_steps(a, c, m + n),
        decreases n,
    {
        if n == 0 {
        } else {
            let mid = choose|mid: NodeId|
                self.link_steps(b, mid, (n - 1) as nat) && self.valid(c)
                && #[trigger] self.linked(mid, c);
            self.lemma_link_steps_trans(a, b, mid, m, (n - 1) as nat);
            assert(self.link_steps(a, c, (m + n - 1) as nat + 1));
        }
    }

    /// Link reachability is reflexive on valid nodes.
    pub proof fn lemma_link_reach_refl(self, a: NodeId)
        requires
            self.valid(a),
        ensures
            self.link_reach(a, a),
    {
        assert(self.link_steps(a, a, 0));
    }

    /// Link reachability is transitive.
    pub proof fn lemma_link_reach_trans(self, a: NodeId, b: NodeId, c: NodeId)
        requires
            self.link_reach(a, b),
            self.link_reach(b, c),
        ensures
            self.link_reach(a, c),
    {
        let m = choose|m: nat| self.link_steps(a, b, m);
        let n = choose|n: nat| self.link_steps(b, c, n);
        self.lemma_link_steps_trans(a, b, c, m, n);
    }

    /// Link walks survive in any pool whose link relation extends this one
    /// over the same node set.
    pub proof fn lemma_link_steps_mono<U>(self, other: Pool<U>, a: NodeId, b: NodeId, n: nat)
        requires
            self.link_steps(a, b, n),
            other.nodes@.len() == self.nodes@.len(),
            forall|x: NodeId, y: NodeId| #[trigger] self.linked(x, y) ==> other.linked(x, y),
        ensures
            other.link_steps(a, b, n),
        decreases n,
    {
        if n == 0 {
        } else {
            let mid = choose|mid: NodeId|
                self.link_steps(a, mid, (n - 1) as nat) && self.valid(b)
                && #[trigger] self.linked(mid, b);
            self.lemma_link_steps_mono(other, a, mid, (n - 1) as nat);
        }
    }

    /// Link reachability survives in any pool whose link relation extends
    /// this one over the same node set.
    pub proof fn lemma_link_reach_mono<U>(self, other: Pool<U>, a: NodeId, b: NodeId)
        requires
            self.link_reach(a, b),
            other.nodes@.len() == self.nodes@.len(),
            forall|x: NodeId, y: NodeId| #[trigger] self.linked(x, y) ==> other.linked(x, y),
        ensures
            other.link_reach(a, b),
    {
        let n = choose|n: nat| self.link_steps(a, b, n);
        self.lemma_link_steps_mono(other, a, b, n);
    }
}

} // verus!