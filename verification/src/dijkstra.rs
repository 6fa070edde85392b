//! The distance engine: single-source unweighted shortest-path search over
//! the *link* graph (not adjacency), by multi-frontier breadth-first
//! expansion.

use vstd::prelude::*;

use crate::pool::{NodeId, Node, Pool};

verus! {

/// A distance measured in passages: either a finite hop count or
/// unreachable.
#[derive(Clone, Copy, Debug, PartialEq, Eq, Structural)]
pub enum Distance {
    Finite(usize),
    Infinite,
}

impl Distance {
    pub fn finite(d: usize) -> (r: Self)
        ensures
            r == Distance::Finite(d),
    {
        Self::Finite(d)
    }

    pub fn infinite() -> (r: Self)
        ensures
            r == Distance::Infinite,
    {
        Self::Infinite
    }

    pub fn as_finite(self) -> (r: Option<usize>)
        ensures
            match self {
                Distance::Finite(d) => r == Some(d),
                Distance::Infinite => r == None::<usize>,
            },
    {
        match self {
            Self::Infinite => None,
            Self::Finite(d) => Some(d),
        }
    }

    /// Adds a finite amount to a distance. An infinite distance stays
    /// infinite whatever is added to it.
    pub fn plus(self, rhs: usize) -> (r: Self)
        requires
            self matches Distance::Finite(d) ==> d + rhs <= usize::MAX,
        ensures
            self matches Distance::Finite(d) ==> r == Distance::Finite((d + rhs) as usize),
            self is Infinite ==> r is Infinite,
    {
        match self {
            Self::Finite(d) => Self::Finite(d + rhs),
            Self::Infinite => Self::Infinite,
        }
    }
}

/// A scratch pad for a breadth-first distance computation: a pool parallel
/// to the source pool where each payload is the distance assigned so far,
/// if any.
pub struct DijkstraPad {
    pub pool: Pool<Option<Distance>>,
    pub start_node: NodeId,
}

/// A finished, read-only distance snapshot: every node of the source pool
/// carries either its link-graph distance from `start_node` or
/// [`Distance::Infinite`] if no path of passages reaches it.
#[derive(Debug)]
pub struct Distances {
    pub pool: Pool<Distance>,
    pub start_node: NodeId,
}

/// `d` is the exact link-graph distance from `a` to `b` in `p`: the least
/// number of passages of any walk between them, or infinite when no walk
/// exists.
pub open spec fn is_link_dist<T>(p: Pool<T>, a: NodeId, b: NodeId, d: Distance) -> bool {
    match d {
        Distance::Finite(k) => p.link_steps(a, b, k as nat)
            && (forall|m: nat| m < k ==> !(#[trigger] p.link_steps(a, b, m))),
        Distance::Infinite => !p.link_reach(a, b),
    }
}

/// The exact distance between two nodes is unique.
pub proof fn lemma_link_dist_unique<T>(p: Pool<T>, a: NodeId, b: NodeId, d1: Distance, d2: Distance)
    requires
        is_link_dist(p, a, b, d1),
        is_link_dist(p, a, b, d2),
    ensures
        d1 == d2,
{
    match (d1, d2) {
        (Distance::Finite(k1), Distance::Finite(k2)) => {
            if k1 < k2 {
                assert(!p.link_steps(a, b, k1 as nat));
            } else if k2 < k1 {
                assert(!p.link_steps(a, b, k2 as nat));
            }
        },
        (Distance::Finite(k1), Distance::Infinite) => {
            assert(p.link_reach(a, b));
        },
        (Distance::Infinite, Distance::Finite(k2)) => {
            assert(p.link_reach(a, b));
        },
        (Distance::Infinite, Distance::Infinite) => {},
    }
}

/// Exact distances transfer between pools with the same link relation.
pub proof fn lemma_link_dist_same_links<T, U>(
    p1: Pool<T>,
    p2: Pool<U>,
    a: NodeId,
    b: NodeId,
    d: Distance,
)
    requires
        p2.nodes@.len() == p1.nodes@.len(),
        forall|x: NodeId, y: NodeId| #[trigger] p1.linked(x, y) == p2.linked(x, y),
        is_link_dist(p1, a, b, d),
    ensures
        is_link_dist(p2, a, b, d),
{
    match d {
        Distance::Finite(k) => {
            p1.lemma_link_steps_mono(p2, a, b, k as nat);
            assert forall|m: nat| m < k implies !(#[trigger] p2.link_steps(a, b, m)) by {
                if p2.link_steps(a, b, m) {
                    p2.lemma_link_steps_mono(p1, a, b, m);
                }
            }
        },
        Distance::Infinite => {
            if p2.link_reach(a, b) {
                p2.lemma_link_reach_mono(p1, a, b);
            }
        },
    }
}

/// How many nodes among the first `k` have no distance assigned yet.
pub open spec fn unassigned_to(nodes: Seq<Node<Option<Distance>>>, k: int) -> int
    decreases k,
{
    if k <= 0 {
        0
    } else {
        unassigned_to(nodes, k - 1) + if nodes[k - 1].payload is None {
            1int
        } else {
            0int
        }
    }
}

proof fn lemma_unassigned_nonneg(nodes: Seq<Node<Option<Distance>>>, k: int)
    ensures
        unassigned_to(nodes, k) >= 0,
    decreases k,
{
    if k > 0 {
        lemma_unassigned_nonneg(nodes, k - 1);
    }
}

proof fn lemma_unassigned_le(nodes: Seq<Node<Option<Distance>>>, k: int)
    requires
        0 <= k,
    ensures
        unassigned_to(nodes, k) <= k,
    decreases k,
{
    if k > 0 {
        lemma_unassigned_le(nodes, k - 1);
    }
}

proof fn lemma_unassigned_lt(nodes: Seq<Node<Option<Distance>>>, j: int, k: int)
    requires
        0 <= j < k,
        nodes[j].payload is Some,
    ensures
        unassigned_to(nodes, k) < k,
    decreases k,
{
    lemma_unassigned_le(nodes, k - 1);
    if j < k - 1 {
        lemma_unassigned_lt(nodes, j, k - 1);
    }
}

proof fn lemma_unassigned_pos(nodes: Seq<Node<Option<Distance>>>, j: int, k: int)
    requires
        0 <= j < k,
        nodes[j].payload is None,
    ensures
        unassigned_to(nodes, k) >= 1,
    decreases k,
{
    lemma_unassigned_nonneg(nodes, k - 1);
    if j < k - 1 {
        lemma_unassigned_pos(nodes, j, k - 1);
        lemma_unassigned_nonneg(nodes, k);
    }
}

proof fn lemma_unassigned_update(
    nodes: Seq<Node<Option<Distance>>>,
    updated: Seq<Node<Option<Distance>>>,
    j: int,
    k: int,
)
    requires
        updated.len() == nodes.len(),
        0 <= j < nodes.len(),
        nodes[j].payload is None,
        updated[j].payload is Some,
        forall|t: int| 0 <= t < nodes.len() && t != j ==> updated[t] == nodes[t],
        k <= nodes.len(),
    ensures
        k > j ==> unassigned_to(updated, k) == unassigned_to(nodes, k) - 1,
        k <= j ==> unassigned_to(updated, k) == unassigned_to(nodes, k),
    decreases k,
{
    if k > 0 {
        lemma_unassigned_update(nodes, updated, j, k - 1);
    }
}

impl DijkstraPad {
    /// A fresh pad over the given source pool: the start node is at
    /// distance zero, every other node is not yet assigned.
    pub fn new<T>(source: &Pool<T>, start_node: NodeId) -> (r: DijkstraPad)
        requires
            source.wf(),
            source.valid(start_node),
        ensures
            r.start_node == start_node,
            r.pool.wf(),
            r.pool.nodes@.len() == source.nodes@.len(),
            forall|i: int| 0 <= i < source.nodes@.len() ==> {
                &&& (#[trigger] r.pool.nodes@[i]).id == source.nodes@[i].id
                &&& r.pool.nodes@[i].links@ == source.nodes@[i].links@
                &&& r.pool.nodes@[i].adjacencies@ == source.nodes@[i].adjacencies@
            },
            forall|i: int| 0 <= i < source.nodes@.len()
                ==> (#[trigger] r.pool.nodes@[i]).payload == (if i == start_node.0 as int {
                    Some(Distance::Finite(0))
                } else {
                    None::<Distance>
                }),
    {
        let mut nodes: Vec<Node<Option<Distance>>> = Vec::new();
        let mut i: usize = 0;
        while i < source.nodes.len()
            invariant
                source.wf(),
                i <= source.nodes@.len(),
                nodes@.len() == i,
                forall|k: int| 0 <= k < i ==> {
                    &&& (#[trigger] nodes@[k]).id == source.nodes@[k].id
                    &&& nodes@[k].links@ == source.nodes@[k].links@
                    &&& nodes@[k].adjacencies@ == source.nodes@[k].adjacencies@
                    &&& nodes@[k].payload == (if k == start_node.0 as int {
                        Some(Distance::Finite(0))
                    } else {
                        None::<Distance>
                    })
                },
            decreases source.nodes@.len() - i,
        {
            let source_node = &source.nodes[i];
            let payload = if source_node.id == start_node {
                Some(Distance::finite(0))
            } else {
                None
            };
            proof {
                assert(source.node_ok(i as int));
            }
            nodes.push(Node {
                id: source_node.id,
                links: source_node.links.clone(),
                adjacencies: source_node.adjacencies.clone(),
                payload,
            });
            i += 1;
        }
        let pool = Pool { nodes };
        proof {
            assert forall|k: int| 0 <= k < pool.nodes@.len() implies pool.node_ok(k) by {
                assert(source.node_ok(k));
            }
        }
        DijkstraPad { pool, start_node }
    }

    /// Runs the breadth-first expansion to completion.
    ///
    /// Every node reachable from the start node through passages ends with a
    /// finite distance; every unreachable node ends infinite; the start node
    /// itself ends at distance zero.
    pub fn perform(self) -> (d: Distances)
        requires
            self.pool.wf(),
            self.pool.valid(self.start_node),
            forall|i: int| 0 <= i < self.pool.nodes@.len()
                ==> (#[trigger] self.pool.nodes@[i]).payload == (if i == self.start_node.0 as int {
                    Some(Distance::Finite(0))
                } else {
                    None::<Distance>
                }),
        ensures
            d.start_node == self.start_node,
            d.pool.wf(),
            d.pool.nodes@.len() == self.pool.nodes@.len(),
            forall|i: int| 0 <= i < self.pool.nodes@.len() ==> {
                &&& (#[trigger] d.pool.nodes@[i]).id == self.pool.nodes@[i].id
                &&& d.pool.nodes@[i].links@ == self.pool.nodes@[i].links@
                &&& d.pool.nodes@[i].adjacencies@ == self.pool.nodes@[i].adjacencies@
            },
            d.pool.nodes@[self.start_node.0 as int].payload == Distance::Finite(0),
            forall|i: int| 0 <= i < d.pool.nodes@.len()
                ==> ((#[trigger] d.pool.nodes@[i]).payload is Finite
                    <==> self.pool.link_reach(self.start_node, NodeId(i as usize))),
            // Each finite payload is the length of a shortest link walk.
            forall|i: int| 0 <= i < d.pool.nodes@.len()
                ==> is_link_dist(
                    self.pool,
                    self.start_node,
                    NodeId(i as usize),
                    (#[trigger] d.pool.nodes@[i]).payload,
                ),
    {
        let start = self.start_node;
        let mut pad = self;
        let ghost initial = pad.pool;
        let n = pad.pool.nodes.len();

        // Count the nodes that still need a distance, for termination.
        let mut remaining: usize = 0;
        let mut c: usize = 0;
        while c < n
            invariant
                n == pad.pool.nodes@.len(),
                c <= n,
                remaining == unassigned_to(pad.pool.nodes@, c as int),
                remaining <= c,
            decreases n - c,
        {
            if pad.pool.nodes[c].payload.is_none() {
                remaining = remaining + 1;
            }
            c += 1;
        }

        let mut frontier: Vec<NodeId> = Vec::new();
        frontier.push(start);
        let ghost mut depth: int = 0;
        proof {
            pad.pool.lemma_link_reach_refl(start);
            assert(frontier@.contains(start)) by {
                assert(frontier@[0] == start);
            }
            lemma_unassigned_lt(pad.pool.nodes@, start.0 as int, n as int);
            assert(initial.link_steps(start, start, 0));
            assert(is_link_dist(initial, start, start, Distance::Finite(0)));
            assert forall|i: int, m: nat|
                0 <= i < n && m <= 0
                && #[trigger] initial.link_steps(start, NodeId(i as usize), m)
                implies pad.pool.nodes@[i].payload is Some by {
                assert(NodeId(i as usize) == start);
            }
        }

        while frontier.len() > 0
            invariant
                n == pad.pool.nodes@.len(),
                pad.pool.wf(),
                pad.pool.valid(start),
                initial.wf(),
                initial.valid(start),
                pad.pool.nodes@.len() == initial.nodes@.len(),
                forall|i: int| 0 <= i < n ==> {
                    &&& (#[trigger] pad.pool.nodes@[i]).id == initial.nodes@[i].id
                    &&& pad.pool.nodes@[i].links@ == initial.nodes@[i].links@
                    &&& pad.pool.nodes@[i].adjacencies@ == initial.nodes@[i].adjacencies@
                },
                pad.pool.nodes@[start.0 as int].payload == Some(Distance::Finite(0)),
                remaining == unassigned_to(pad.pool.nodes@, n as int),
                // Assigned nodes carry small finite distances and are reachable.
                forall|i: int| 0 <= i < n && (#[trigger] pad.pool.nodes@[i]).payload is Some
                    ==> (exists|dv: usize|
                            pad.pool.nodes@[i].payload == Some(Distance::Finite(dv))
                            && dv < n - remaining)
                        && pad.pool.link_reach(start, NodeId(i as usize)),
                // Assigned values are exact shortest-walk lengths.
                depth >= 0,
                forall|i: int| 0 <= i < n
                    ==> ((#[trigger] pad.pool.nodes@[i]).payload matches Some(dd)
                        ==> is_link_dist(initial, start, NodeId(i as usize), dd)),
                // Everything within `depth` walks of the start is assigned.
                forall|i: int, m: nat|
                    0 <= i < n && m <= depth
                    && #[trigger] initial.link_steps(start, NodeId(i as usize), m)
                    ==> pad.pool.nodes@[i].payload is Some,
                // Frontier nodes are valid and sit exactly at this depth.
                forall|k: int| 0 <= k < frontier@.len() ==> {
                    &&& (#[trigger] frontier@[k]).0 < n
                    &&& pad.pool.nodes@[frontier@[k].0 as int].payload is Some
                },
                forall|k: int| 0 <= k < frontier@.len()
                    ==> (pad.pool.nodes@[(#[trigger] frontier@[k]).0 as int].payload
                        matches Some(Distance::Finite(dv)) && dv as int == depth),
                // Every assigned node outside the frontier already has all
                // of its link neighbors assigned.
                forall|u: NodeId, v: NodeId|
                    u.0 < n && pad.pool.nodes@[u.0 as int].payload is Some
                    && !frontier@.contains(u) && #[trigger] pad.pool.linked(u, v)
                    ==> pad.pool.nodes@[v.0 as int].payload is Some,
            decreases remaining + frontier@.len(),
        {
            let ghost round_pool = pad.pool;
            let ghost round_remaining = remaining;
            proof {
                assert(frontier@.subrange(0, frontier@.len() as int) == frontier@);
            }
            let mut new_frontier: Vec<NodeId> = Vec::new();
            let mut k: usize = 0;
            while k < frontier.len()
                invariant
                    n == pad.pool.nodes@.len(),
                    pad.pool.wf(),
                    pad.pool.valid(start),
                    initial.wf(),
                    pad.pool.nodes@.len() == initial.nodes@.len(),
                    k <= frontier@.len(),
                    forall|i: int| 0 <= i < n ==> {
                        &&& (#[trigger] pad.pool.nodes@[i]).id == initial.nodes@[i].id
                        &&& pad.pool.nodes@[i].links@ == initial.nodes@[i].links@
                        &&& pad.pool.nodes@[i].adjacencies@ == initial.nodes@[i].adjacencies@
                    },
                    pad.pool.nodes@[start.0 as int].payload == Some(Distance::Finite(0)),
                    remaining == unassigned_to(pad.pool.nodes@, n as int),
                    remaining + new_frontier@.len() == round_remaining,
                    forall|i: int| 0 <= i < n
                        && (#[trigger] round_pool.nodes@[i]).payload is Some
                        ==> pad.pool.nodes@[i].payload == round_pool.nodes@[i].payload,
                    forall|i: int| 0 <= i < n && (#[trigger] pad.pool.nodes@[i]).payload is Some
                        ==> (exists|dv: usize|
                                pad.pool.nodes@[i].payload == Some(Distance::Finite(dv))
                                && dv < n - remaining)
                            && pad.pool.link_reach(start, NodeId(i as usize)),
                    depth >= 0,
                    forall|i: int| 0 <= i < n
                        ==> ((#[trigger] pad.pool.nodes@[i]).payload matches Some(dd)
                            ==> is_link_dist(initial, start, NodeId(i as usize), dd)),
                    forall|i: int, m: nat|
                        0 <= i < n && m <= depth
                        && #[trigger] initial.link_steps(start, NodeId(i as usize), m)
                        ==> pad.pool.nodes@[i].payload is Some,
                    forall|j: int| 0 <= j < frontier@.len() ==> {
                        &&& (#[trigger] frontier@[j]).0 < n
                        &&& pad.pool.nodes@[frontier@[j].0 as int].payload is Some
                    },
                    forall|j: int| 0 <= j < frontier@.len()
                        ==> (pad.pool.nodes@[(#[trigger] frontier@[j]).0 as int].payload
                            matches Some(Distance::Finite(dv)) && dv as int == depth),
                    forall|j: int| 0 <= j < new_frontier@.len() ==> {
                        &&& (#[trigger] new_frontier@[j]).0 < n
                        &&& pad.pool.nodes@[new_frontier@[j].0 as int].payload is Some
                    },
                    forall|j: int| 0 <= j < new_frontier@.len()
                        ==> (pad.pool.nodes@[(#[trigger] new_frontier@[j]).0 as int].payload
                            matches Some(Distance::Finite(dv)) && dv as int == depth + 1),
                    // Closure, except for unprocessed frontier entries and
                    // the freshly discovered nodes.
                    forall|u: NodeId, v: NodeId|
                        u.0 < n && pad.pool.nodes@[u.0 as int].payload is Some
                        && !frontier@.subrange(k as int, frontier@.len() as int).contains(u)
                        && !new_frontier@.contains(u)
                        && #[trigger] pad.pool.linked(u, v)
                        ==> pad.pool.nodes@[v.0 as int].payload is Some,
                decreases frontier@.len() - k,
            {
                let cell = frontier[k];
                let current_distance = match pad.pool.nodes[cell.0].payload {
                    Some(dist) => dist,
                    None => {
                        proof {
                            assert(false);
                        }
                        Distance::Infinite
                    },
                };
                let neighbors = pad.pool.passages_of(cell);
                proof {
                    assert(pad.pool.nodes@[cell.0 as int].links@
                        == initial.nodes@[cell.0 as int].links@);
                }
                let mut t: usize = 0;
                while t < neighbors.len()
                    invariant
                        n == pad.pool.nodes@.len(),
                        pad.pool.wf(),
                        pad.pool.valid(start),
                        initial.wf(),
                        pad.pool.nodes@.len() == initial.nodes@.len(),
                        t <= neighbors@.len(),
                        k < frontier@.len(),
                        cell == frontier@[k as int],
                        cell.0 < n,
                        neighbors@ == initial.nodes@[cell.0 as int].links@,
                        (exists|dv: usize|
                            Some(current_distance) == Some(Distance::Finite(dv))
                            && dv < n - remaining),
                        (current_distance matches Distance::Finite(dv) && dv as int == depth),
                        depth >= 0,
                        pad.pool.nodes@[cell.0 as int].payload == Some(current_distance),
                        forall|i: int| 0 <= i < n ==> {
                            &&& (#[trigger] pad.pool.nodes@[i]).id == initial.nodes@[i].id
                            &&& pad.pool.nodes@[i].links@ == initial.nodes@[i].links@
                            &&& pad.pool.nodes@[i].adjacencies@ == initial.nodes@[i].adjacencies@
                        },
                        pad.pool.nodes@[start.0 as int].payload == Some(Distance::Finite(0)),
                        remaining == unassigned_to(pad.pool.nodes@, n as int),
                        remaining + new_frontier@.len() == round_remaining,
                        forall|i: int| 0 <= i < n
                            && (#[trigger] round_pool.nodes@[i]).payload is Some
                            ==> pad.pool.nodes@[i].payload == round_pool.nodes@[i].payload,
                        forall|i: int| 0 <= i < n
                            && (#[trigger] pad.pool.nodes@[i]).payload is Some
                            ==> (exists|dv: usize|
                                    pad.pool.nodes@[i].payload == Some(Distance::Finite(dv))
                                    && dv < n - remaining)
                                && pad.pool.link_reach(start, NodeId(i as usize)),
                        forall|i: int| 0 <= i < n
                            ==> ((#[trigger] pad.pool.nodes@[i]).payload matches Some(dd)
                                ==> is_link_dist(initial, start, NodeId(i as usize), dd)),
                        forall|i: int, m: nat|
                            0 <= i < n && m <= depth
                            && #[trigger] initial.link_steps(start, NodeId(i as usize), m)
                            ==> pad.pool.nodes@[i].payload is Some,
                        forall|j: int| 0 <= j < frontier@.len() ==> {
                            &&& (#[trigger] frontier@[j]).0 < n
                            &&& pad.pool.nodes@[frontier@[j].0 as int].payload is Some
                        },
                        forall|j: int| 0 <= j < new_frontier@.len() ==> {
                            &&& (#[trigger] new_frontier@[j]).0 < n
                            &&& pad.pool.nodes@[new_frontier@[j].0 as int].payload is Some
                        },
                        forall|j: int| 0 <= j < new_frontier@.len()
                            ==> (pad.pool.nodes@[
                                    (#[trigger] new_frontier@[j]).0 as int].payload
                                matches Some(Distance::Finite(dv)) && dv as int == depth + 1),
                        // Neighbors of `cell` looked at so far are assigned.
                        forall|s: int| 0 <= s < t
                            ==> pad.pool.nodes@[(#[trigger] neighbors@[s]).0 as int].payload
                                is Some,
                        forall|u: NodeId, v: NodeId|
                            u.0 < n && pad.pool.nodes@[u.0 as int].payload is Some
                            && !frontier@.subrange(k as int, frontier@.len() as int).contains(u)
                            && !new_frontier@.contains(u)
                            && #[trigger] pad.pool.linked(u, v)
                            ==> pad.pool.nodes@[v.0 as int].payload is Some,
                    decreases neighbors@.len() - t,
                {
                    let neighbor = neighbors[t];
                    proof {
                        assert(pad.pool.node_ok(cell.0 as int));
                        assert(neighbors@[t as int]
                            == pad.pool.nodes@[cell.0 as int].links@[t as int]);
                        assert(pad.pool.nodes@[cell.0 as int].links@.contains(
                            neighbors@[t as int]));
                        assert(pad.pool.linked(cell, neighbor));
                        let q = choose|q: int|
                            0 <= q < pad.pool.nodes@[cell.0 as int].adjacencies@.len()
                            && (#[trigger] pad.pool.nodes@[cell.0 as int].adjacencies@[q])
                                == neighbor;
                        assert(neighbor.0 < n);
                    }
                    if pad.pool.nodes[neighbor.0].payload.is_none() {
                        let ghost before = pad.pool;
                        proof {
                            lemma_unassigned_pos(pad.pool.nodes@, neighbor.0 as int, n as int);
                        }
                        let next_distance = match current_distance {
                            Distance::Finite(dv) => Distance::finite(dv + 1),
                            Distance::Infinite => {
                                proof {
                                    assert(false);
                                }
                                Distance::Infinite
                            },
                        };
                        let node_ref = pad.pool.get_mut(neighbor);
                        node_ref.payload = Some(next_distance);
                        remaining = remaining - 1;
                        let ghost nf0 = new_frontier@;
                        new_frontier.push(neighbor);
                        proof {
                            assert forall|i2: int| 0 <= i2 < n
                                implies pad.pool.node_ok(i2) by {
                                assert(before.node_ok(i2));
                            }
                            lemma_unassigned_update(
                                before.nodes@,
                                pad.pool.nodes@,
                                neighbor.0 as int,
                                n as int,
                            );
                            assert(before.linked(cell, neighbor));
                            assert forall|x: NodeId, y: NodeId| #[trigger] before.linked(x, y)
                                implies pad.pool.linked(x, y) by {};
                            before.lemma_link_reach_mono(pad.pool, start, cell);
                            assert(pad.pool.linked(cell, neighbor));
                            let m = choose|m: nat| pad.pool.link_steps(start, cell, m);
                            assert(pad.pool.link_steps(start, neighbor, m + 1));
                            assert(pad.pool.link_reach(start, neighbor));
                            assert forall|i: int|
                                0 <= i < n && (#[trigger] pad.pool.nodes@[i]).payload is Some
                                implies (exists|dv: usize|
                                        pad.pool.nodes@[i].payload == Some(Distance::Finite(dv))
                                        && dv < n)
                                    && pad.pool.link_reach(start, NodeId(i as usize)) by {
                                if i != neighbor.0 as int {
                                    assert(before.nodes@[i].payload is Some);
                                    before.lemma_link_reach_mono(
                                        pad.pool,
                                        start,
                                        NodeId(i as usize),
                                    );
                                } else {
                                    assert(NodeId(i as usize) == neighbor);
                                }
                            }
                            // The fresh assignment is the exact distance:
                            // a walk of depth + 1 exists through `cell`,
                            // and a shorter one would have been assigned
                            // in an earlier layer.
                            assert forall|x: NodeId, y: NodeId| #[trigger] pad.pool.linked(x, y)
                                implies before.linked(x, y) by {};
                            assert forall|x: NodeId, y: NodeId| #[trigger] initial.linked(x, y)
                                == before.linked(x, y) by {};
                            let dcell = choose|dcell: usize|
                                current_distance == Distance::Finite(dcell)
                                && dcell as int == depth;
                            assert(is_link_dist(initial, start, cell, current_distance));
                            assert(initial.link_steps(start, cell, dcell as nat));
                            assert(initial.linked(cell, neighbor));
                            assert(initial.link_steps(start, neighbor, dcell as nat + 1));
                            assert(next_distance == Distance::Finite((dcell + 1) as usize));
                            assert forall|mm: nat| mm < dcell + 1
                                implies !(#[trigger] initial.link_steps(start, neighbor, mm))
                                by {
                                if initial.link_steps(start, neighbor, mm) {
                                    assert(before.nodes@[neighbor.0 as int].payload is Some);
                                }
                            }
                            assert(is_link_dist(initial, start, neighbor, next_distance));
                            assert forall|i: int| 0 <= i < n
                                implies ((#[trigger] pad.pool.nodes@[i]).payload
                                    matches Some(dd)
                                    ==> is_link_dist(
                                        initial, start, NodeId(i as usize), dd)) by {
                                if i != neighbor.0 as int {
                                    assert(pad.pool.nodes@[i].payload
                                        == before.nodes@[i].payload);
                                }
                            }
                        }
                        assert forall|s: int| 0 <= s < t + 1
                            implies pad.pool.nodes@[
                                (#[trigger] neighbors@[s]).0 as int].payload is Some by {
                            if s < t {
                                assert(before.nodes@[neighbors@[s].0 as int].payload is Some);
                            } else {
                                assert(neighbors@[s] == neighbor);
                            }
                        }
                        assert(new_frontier@.contains(neighbor)) by {
                            assert(new_frontier@[new_frontier@.len() - 1] == neighbor);
                        }
                        assert forall|z: NodeId| #[trigger] nf0.contains(z)
                            implies new_frontier@.contains(z) by {
                            let q2 = choose|q2: int| 0 <= q2 < nf0.len() && nf0[q2] == z;
                            assert(new_frontier@[q2] == z);
                        }
                        assert forall|u: NodeId, v: NodeId|
                            u.0 < n && pad.pool.nodes@[u.0 as int].payload is Some
                            && !frontier@.subrange(k as int, frontier@.len() as int).contains(u)
                            && !new_frontier@.contains(u)
                            && #[trigger] pad.pool.linked(u, v)
                            implies pad.pool.nodes@[v.0 as int].payload is Some by {
                            assert(u != neighbor);
                            assert(!nf0.contains(u));
                            assert(before.nodes@[u.0 as int].payload is Some);
                            assert(pad.pool.node_ok(u.0 as int));
                            let lq = choose|lq: int|
                                0 <= lq < pad.pool.nodes@[u.0 as int].links@.len()
                                && (#[trigger] pad.pool.nodes@[u.0 as int].links@[lq]) == v;
                            assert(pad.pool.nodes@[u.0 as int].adjacencies@.contains(v));
                            let aq = choose|aq: int|
                                0 <= aq < pad.pool.nodes@[u.0 as int].adjacencies@.len()
                                && (#[trigger] pad.pool.nodes@[u.0 as int].adjacencies@[aq])
                                    == v;
                            assert(v.0 < n);
                            assert(before.linked(u, v));
                            assert(before.nodes@[v.0 as int].payload is Some);
                        }
                    }
                    t += 1;
                }
                proof {
                    assert forall|u: NodeId, v: NodeId|
                        u.0 < n && pad.pool.nodes@[u.0 as int].payload is Some
                        && !frontier@.subrange(k as int + 1, frontier@.len() as int).contains(u)
                        && !new_frontier@.contains(u)
                        && #[trigger] pad.pool.linked(u, v)
                        implies pad.pool.nodes@[v.0 as int].payload is Some by {
                        if u == cell {
                            assert(pad.pool.nodes@[u.0 as int].links@
                                == initial.nodes@[cell.0 as int].links@);
                            let s = choose|s: int|
                                0 <= s < neighbors@.len()
                                && (#[trigger] neighbors@[s]) == v;
                        } else {
                            if !frontier@.subrange(k as int, frontier@.len() as int).contains(u) {
                            } else {
                                let j = choose|j: int|
                                    k <= j < frontier@.len() && frontier@[j] == u;
                                assert(j == k || frontier@.subrange(
                                    k as int + 1,
                                    frontier@.len() as int,
                                )[j - k - 1] == u);
                            }
                        }
                    }
                }
                k += 1;
            }
            proof {
                // One more layer is complete: everything within depth + 1
                // walks of the start is now assigned, through the closure
                // of the processed layer.
                assert forall|i: int, m: nat|
                    0 <= i < n && m <= depth + 1
                    && #[trigger] initial.link_steps(start, NodeId(i as usize), m)
                    implies pad.pool.nodes@[i].payload is Some by {
                    if m <= depth {
                    } else {
                        let target = NodeId(i as usize);
                        let mid = choose|mid: NodeId|
                            initial.link_steps(start, mid, (m - 1) as nat)
                            && initial.valid(target)
                            && #[trigger] initial.linked(mid, target);
                        initial.lemma_link_steps_valid(start, mid, (m - 1) as nat);
                        assert(NodeId(mid.0 as int as usize) == mid);
                        assert(initial.link_steps(
                            start, NodeId(mid.0 as int as usize), (m - 1) as nat));
                        assert(pad.pool.nodes@[mid.0 as int].payload is Some);
                        if !(pad.pool.nodes@[i].payload is Some) {
                            // The middle node sits at most `depth` deep, so
                            // it is not in the fresh layer, and the closure
                            // catches its neighbor.
                            let dd = choose|dd: Distance|
                                pad.pool.nodes@[mid.0 as int].payload == Some(dd);
                            assert(is_link_dist(initial, start, mid, dd));
                            let dv = choose|dv: usize| dd == Distance::Finite(dv);
                            assert((dv as int) <= depth) by {
                                if (dv as int) > depth {
                                    assert(((m - 1) as nat) < dv);
                                    assert(!initial.link_steps(
                                        start, mid, (m - 1) as nat));
                                }
                            }
                            assert(!new_frontier@.contains(mid)) by {
                                if new_frontier@.contains(mid) {
                                    let q = choose|q: int|
                                        0 <= q < new_frontier@.len()
                                        && new_frontier@[q] == mid;
                                }
                            }
                            assert(!frontier@.subrange(
                                k as int, frontier@.len() as int).contains(mid));
                            assert(pad.pool.linked(mid, target)) by {
                                assert(pad.pool.nodes@[mid.0 as int].links@
                                    == initial.nodes@[mid.0 as int].links@);
                            }
                            assert(pad.pool.nodes@[i].payload is Some);
                        }
                    }
                }
                depth = depth + 1;
            }
            frontier = new_frontier;
        }

        // The frontier is exhausted: the assigned region is closed under
        // links, so it contains everything reachable from the start.
        proof {
            assert forall|i: int|
                0 <= i < n && pad.pool.link_reach(start, NodeId(i as usize))
                implies (#[trigger] pad.pool.nodes@[i]).payload is Some by {
                let m = choose|m: nat|
                    #[trigger] pad.pool.link_steps(start, NodeId(i as usize), m);
                lemma_closed_region_catches_walks(pad.pool, start, NodeId(i as usize), m);
            }
        }

        let mut out_nodes: Vec<Node<Distance>> = Vec::new();
        let mut c2: usize = 0;
        while c2 < pad.pool.nodes.len()
            invariant
                pad.pool.wf(),
                c2 <= pad.pool.nodes@.len(),
                out_nodes@.len() == c2,
                forall|k: int| 0 <= k < c2 ==> {
                    &&& (#[trigger] out_nodes@[k]).id == pad.pool.nodes@[k].id
                    &&& out_nodes@[k].links@ == pad.pool.nodes@[k].links@
                    &&& out_nodes@[k].adjacencies@ == pad.pool.nodes@[k].adjacencies@
                    &&& out_nodes@[k].payload == (match pad.pool.nodes@[k].payload {
                        Some(dist) => dist,
                        None => Distance::Infinite,
                    })
                },
            decreases pad.pool.nodes@.len() - c2,
        {
            let pad_node = &pad.pool.nodes[c2];
            let payload = match pad_node.payload {
                Some(dist) => dist,
                None => Distance::infinite(),
            };
            out_nodes.push(Node {
                id: pad_node.id,
                links: pad_node.links.clone(),
                adjacencies: pad_node.adjacencies.clone(),
                payload,
            });
            c2 += 1;
        }
        let distance_pool = Pool { nodes: out_nodes };
        proof {
            assert forall|k: int| 0 <= k < distance_pool.nodes@.len()
                implies distance_pool.node_ok(k) by {
                assert(pad.pool.node_ok(k));
            }
        }
        let result = Distances { pool: distance_pool, start_node: start };
        proof {
            assert forall|i: int| 0 <= i < result.pool.nodes@.len()
                implies ((#[trigger] result.pool.nodes@[i]).payload is Finite
                    <==> self.pool.link_reach(start, NodeId(i as usize))) by {
                assert forall|x: NodeId, y: NodeId| #[trigger] pad.pool.linked(x, y)
                    implies self.pool.linked(x, y) by {};
                assert forall|x: NodeId, y: NodeId| #[trigger] self.pool.linked(x, y)
                    implies pad.pool.linked(x, y) by {};
                if pad.pool.nodes@[i].payload is Some {
                    assert(pad.pool.link_reach(start, NodeId(i as usize)));
                    pad.pool.lemma_link_reach_mono(self.pool, start, NodeId(i as usize));
                    let dv = choose|dv: usize|
                        pad.pool.nodes@[i].payload == Some(Distance::Finite(dv))
                        && dv < n - remaining;
                    assert(result.pool.nodes@[i].payload is Finite);
                }
                if self.pool.link_reach(start, NodeId(i as usize)) {
                    self.pool.lemma_link_reach_mono(pad.pool, start, NodeId(i as usize));
                    assert(pad.pool.nodes@[i].payload is Some);
                }
            }
            assert(result.pool.nodes@[start.0 as int].payload == Distance::Finite(0));
            assert forall|i: int| 0 <= i < result.pool.nodes@.len()
                implies is_link_dist(
                    self.pool,
                    start,
                    NodeId(i as usize),
                    (#[trigger] result.pool.nodes@[i]).payload,
                ) by {
                assert(initial == self.pool);
                if pad.pool.nodes@[i].payload is Some {
                    let dd = choose|dd: Distance|
                        pad.pool.nodes@[i].payload == Some(dd);
                    assert(is_link_dist(initial, start, NodeId(i as usize), dd));
                    assert(result.pool.nodes@[i].payload == dd);
                } else {
                    assert(result.pool.nodes@[i].payload == Distance::Infinite);
                    assert(!self.pool.link_reach(start, NodeId(i as usize)));
                }
            }
        }
        result
    }
}

/// If a region of assigned nodes is closed under following links and holds
/// the start node, then it holds everything any link walk can reach.
proof fn lemma_closed_region_catches_walks(
    p: Pool<Option<Distance>>,
    start: NodeId,
    target: NodeId,
    m: nat,
)
    requires
        p.valid(start),
        p.nodes@[start.0 as int].payload is Some,
        forall|u: NodeId, v: NodeId|
            u.0 < p.nodes@.len() && p.nodes@[u.0 as int].payload is Some
            && #[trigger] p.linked(u, v)
            ==> p.nodes@[v.0 as int].payload is Some,
        p.link_steps(start, target, m),
    ensures
        p.nodes@[target.0 as int].payload is Some,
    decreases m,
{
    if m == 0 {
    } else {
        let mid = choose|mid: NodeId|
            p.link_steps(start, mid, (m - 1) as nat) && p.valid(target)
            && #[trigger] p.linked(mid, target);
        lemma_closed_region_catches_walks(p, start, mid, (m - 1) as nat);
        p.lemma_link_steps_valid(start, mid, (m - 1) as nat);
    }
}

} // verus!
