//! The loop-erased walker: a path builder that erases self-intersections
//! eagerly, so the stored path is always simple. Wilson's algorithm is built
//! on it.

use vstd::prelude::*;

use crate::pool::{lemma_links_total_empty, lemma_links_total_update2, lemma_marked_full, lemma_marked_le, lemma_marked_of_clear, lemma_marked_set, links_total, marked_to, NodeId, Pool};
use crate::grid::{FlatSquareGrid, Direction};
use crate::rng::rand_index;

verus! {

/// A walk in progress: a start node plus the ordered simple path walked
/// since, with every loop erased as soon as it closes.
pub struct Walker {
    pub start_node: NodeId,
    pub path: Vec<NodeId>,
}

/// Where a prospective step lands relative to the walk so far.
enum RepeatedDirection {
    /// The step returns to the start node itself.
    Start,
    /// The step lands on the path node at this index.
    Middle(usize),
    /// The step lands on a node the walk has not touched.
    Never,
}

/// How one loop-erased step transforms the walker: stepping to the start
/// resets the path, stepping onto the path truncates it back to the first
/// occurrence, anything else is appended.
pub open spec fn step_spec(pre: Walker, post: Walker, next: NodeId) -> bool {
    &&& post.start_node == pre.start_node
    &&& if next == pre.start_node {
        post.path@ == Seq::<NodeId>::empty()
    } else if pre.path@.contains(next) {
        exists|i: int|
            0 <= i < pre.path@.len() && pre.path@[i] == next
            && post.path@ == #[trigger] pre.path@.subrange(0, i)
    } else {
        post.path@ == pre.path@.push(next)
    }
}

impl Walker {
    /// The stored path is simple: no node repeats, and the start node never
    /// appears in it.
    pub open spec fn wf(self) -> bool {
        &&& self.path@.no_duplicates()
        &&& !self.path@.contains(self.start_node)
    }

    /// Every node the walk stands on is a node of `pool`.
    pub open spec fn valid_in<T>(self, pool: Pool<T>) -> bool {
        &&& pool.valid(self.start_node)
        &&& forall|k: int| 0 <= k < self.path@.len() ==> pool.valid(#[trigger] self.path@[k])
    }

    /// The full walked path, start node included.
    pub open spec fn total_path_spec(self) -> Seq<NodeId> {
        seq![self.start_node] + self.path@
    }

    /// The node the walk currently stands on.
    pub open spec fn final_node_spec(self) -> NodeId {
        if self.path@.len() == 0 {
            self.start_node
        } else {
            self.path@.last()
        }
    }

    /// Consecutive nodes of the full path are mutually adjacent in `pool`.
    pub open spec fn chained_in<T>(self, pool: Pool<T>) -> bool {
        forall|k: int| 0 <= k < self.total_path_spec().len() - 1
            ==> pool.adjacent(#[trigger] self.total_path_spec()[k], self.total_path_spec()[k + 1])
                && pool.adjacent(self.total_path_spec()[k + 1], self.total_path_spec()[k])
    }

    pub fn new(start_node: NodeId) -> (r: Walker)
        ensures
            r.start_node == start_node,
            r.path@ == Seq::<NodeId>::empty(),
            r.wf(),
    {
        Walker { start_node, path: Vec::new() }
    }

    /// Checks whether the walk already steps on the given node; if so, says
    /// where.
    fn steps_on(&self, node: NodeId) -> (r: RepeatedDirection)
        requires
            self.wf(),
        ensures
            match r {
                RepeatedDirection::Start => node == self.start_node,
                RepeatedDirection::Middle(i) =>
                    node != self.start_node && i < self.path@.len() && self.path@[i as int] == node,
                RepeatedDirection::Never =>
                    node != self.start_node && !self.path@.contains(node),
            },
    {
        if self.start_node == node {
            return RepeatedDirection::Start;
        }
        let mut i: usize = 0;
        while i < self.path.len()
            invariant
                i <= self.path@.len(),
                node != self.start_node,
                forall|k: int| 0 <= k < i ==> self.path@[k] != node,
            decreases self.path@.len() - i,
        {
            if self.path[i] == node {
                return RepeatedDirection::Middle(i);
            }
            i += 1;
        }
        proof {
            if self.path@.contains(node) {
                let k = choose|k: int| 0 <= k < self.path@.len() && self.path@[k] == node;
                assert(false);
            }
        }
        RepeatedDirection::Never
    }

    /// Appends a new step, erasing any loop it closes: stepping to the start
    /// node resets the path to empty; stepping to a node already at path
    /// index `i` truncates the path back to length `i`; stepping to a new
    /// node appends it.
    pub fn loop_erased_step(&mut self, next_cell: NodeId)
        requires
            old(self).wf(),
        ensures
            final(self).wf(),
            step_spec(*old(self), *final(self), next_cell),
    {
        match self.steps_on(next_cell) {
            RepeatedDirection::Start => {
                self.path.truncate(0);
                proof {
                    assert(self.path@ == old(self).path@.subrange(0, 0));
                    assert(self.path@ =~= Seq::<NodeId>::empty());
                }
            },
            RepeatedDirection::Middle(i) => {
                self.path.truncate(i);
                proof {
                    assert(self.path@ == old(self).path@.subrange(0, i as int));
                    assert(old(self).path@[i as int] == next_cell);
                    assert forall|m: int, n: int| 0 <= m < n < self.path@.len()
                        implies self.path@[m] != self.path@[n] by {
                        assert(old(self).path@[m] == self.path@[m]);
                        assert(old(self).path@[n] == self.path@[n]);
                    }
                    assert forall|y: NodeId| #[trigger] self.path@.contains(y)
                        implies old(self).path@.contains(y) by {
                        let k = choose|k: int| 0 <= k < self.path@.len() && self.path@[k] == y;
                        assert(old(self).path@[k] == y);
                    }
                }
            },
            RepeatedDirection::Never => {
                self.path.push(next_cell);
                proof {
                    assert forall|m: int, n: int| 0 <= m < n < self.path@.len()
                        implies self.path@[m] != self.path@[n] by {
                        if n == self.path@.len() - 1 {
                            assert(old(self).path@.contains(old(self).path@[m]));
                        }
                    }
                    assert forall|y: NodeId| #[trigger] self.path@.contains(y)
                        implies old(self).path@.contains(y) || y == next_cell by {
                        let k = choose|k: int| 0 <= k < self.path@.len() && self.path@[k] == y;
                        if k < self.path@.len() - 1 {
                            assert(old(self).path@[k] == y);
                        }
                    }
                }
            },
        }
    }

    /// The full walked path: the start node followed by every step still
    /// standing.
    pub fn total_path(&self) -> (r: Vec<NodeId>)
        ensures
            r@ == self.total_path_spec(),
    {
        let mut v = self.path.clone();
        v.insert(0, self.start_node);
        proof {
            assert(v@ =~= self.total_path_spec());
        }
        v
    }

    /// The node the walk currently stands on: the last step, or the start
    /// node if no step stands.
    pub fn final_node(&self) -> (r: NodeId)
        ensures
            r == self.final_node_spec(),
    {
        if self.path.len() == 0 {
            self.start_node
        } else {
            self.path[self.path.len() - 1]
        }
    }

    /// Looks up the grid neighbor of the walk head in the given direction.
    pub fn next_step_at_direction(&self, grid: &FlatSquareGrid, direction: Direction)
        -> (r: Option<NodeId>)
        requires
            grid.node_pool.valid(self.final_node_spec()),
        ensures
            r == grid.node_pool.nodes@[
                self.final_node_spec().0 as int].payload.at_direction_spec(direction),
    {
        grid.get_by_id(self.final_node()).at_direction(direction)
    }

    /// A loop-erased step to a node adjacent (in both directions) to the
    /// walk head keeps the full path chained through adjacencies.
    pub proof fn lemma_step_preserves_chain<T>(
        pre: Walker,
        post: Walker,
        next: NodeId,
        pool: Pool<T>,
    )
        requires
            pre.wf(),
            step_spec(pre, post, next),
            pre.chained_in(pool),
            next == pre.start_node
                || (pool.adjacent(pre.final_node_spec(), next)
                    && pool.adjacent(next, pre.final_node_spec())),
        ensures
            post.chained_in(pool),
    {
        let pt = pre.total_path_spec();
        let qt = post.total_path_spec();
        if next == pre.start_node {
            assert(qt.len() == 1);
        } else if pre.path@.contains(next) {
            let i = choose|i: int|
                0 <= i < pre.path@.len() && pre.path@[i] == next
                && post.path@ == #[trigger] pre.path@.subrange(0, i);
            assert forall|k: int| 0 <= k < qt.len() - 1
                implies pool.adjacent(#[trigger] qt[k], qt[k + 1])
                    && pool.adjacent(qt[k + 1], qt[k]) by {
                assert(qt[k] == pt[k]);
                assert(qt[k + 1] == pt[k + 1]);
            }
        } else {
            assert(qt.len() == pt.len() + 1);
            assert forall|k: int| 0 <= k < qt.len() - 1
                implies pool.adjacent(#[trigger] qt[k], qt[k + 1])
                    && pool.adjacent(qt[k + 1], qt[k]) by {
                if k < pt.len() - 1 {
                    assert(qt[k] == pt[k]);
                    assert(qt[k + 1] == pt[k + 1]);
                } else {
                    assert(qt[k] == pt[pt.len() - 1]);
                    assert(pt[pt.len() - 1] == pre.final_node_spec());
                    assert(qt[k + 1] == next);
                }
            }
        }
    }

    /// The same step keeps every node of the walk a node of `pool`.
    pub proof fn lemma_step_preserves_valid<T>(
        pre: Walker,
        post: Walker,
        next: NodeId,
        pool: Pool<T>,
    )
        requires
            step_spec(pre, post, next),
            pre.valid_in(pool),
            pool.valid(next),
        ensures
            post.valid_in(pool),
    {
        if next == pre.start_node {
        } else if pre.path@.contains(next) {
            let i = choose|i: int|
                0 <= i < pre.path@.len() && pre.path@[i] == next
                && post.path@ == #[trigger] pre.path@.subrange(0, i);
            assert forall|k: int| 0 <= k < post.path@.len()
                implies pool.valid(#[trigger] post.path@[k]) by {
                assert(post.path@[k] == pre.path@[k]);
            }
        } else {
            assert forall|k: int| 0 <= k < post.path@.len()
                implies pool.valid(#[trigger] post.path@[k]) by {
                if k < pre.path@.len() {
                    assert(post.path@[k] == pre.path@[k]);
                }
            }
        }
    }

    /// Walks one step to a uniformly random adjacency-neighbor of the
    /// walk's current head. The head must have a neighbor to walk to:
    /// walking out of an empty neighborhood is a fatal geometry error.
    pub fn random_loop_erased_step<T>(&mut self, pool: &Pool<T>, rng: &mut rand::rngs::ThreadRng)
        requires
            old(self).wf(),
            pool.wf(),
            pool.adj_symmetric(),
            old(self).valid_in(*pool),
            pool.nodes@[old(self).final_node_spec().0 as int].adjacencies@.len() > 0,
        ensures
            final(self).wf(),
            final(self).start_node == old(self).start_node,
            final(self).valid_in(*pool),
            exists|nb: NodeId|
                pool.adjacent(old(self).final_node_spec(), nb)
                && #[trigger] step_spec(*old(self), *final(self), nb),
            old(self).chained_in(*pool) ==> final(self).chained_in(*pool),
    {
        let head = self.final_node();
        let neighborhood = pool.neighborhood_of(head);
        let pick = rand_index(rng, neighborhood.len());
        let new_head = neighborhood[pick];
        proof {
            assert(neighborhood@.contains(neighborhood@[pick as int]));
            assert(pool.adjacent(head, new_head));
            assert(pool.node_ok(head.0 as int));
            let q = choose|q: int|
                0 <= q < pool.nodes@[head.0 as int].adjacencies@.len()
                && (#[trigger] pool.nodes@[head.0 as int].adjacencies@[q]) == new_head;
            assert(new_head.0 < pool.nodes@.len());
        }
        let ghost pre = *self;
        self.loop_erased_step(new_head);
        proof {
            Walker::lemma_step_preserves_valid(pre, *self, new_head, *pool);
            if pre.chained_in(*pool) {
                Walker::lemma_step_preserves_chain(pre, *self, new_head, *pool);
            }
        }
    }

    /// Walks randomly until the head lands on a node the `targets` bitmap
    /// marks, erasing loops along the way. Reports whether it landed
    /// within its step budget.
    pub fn loop_erased_walk_into_haystack<N>(
        &mut self,
        pool: &Pool<N>,
        targets: &Vec<bool>,
        rng: &mut rand::rngs::ThreadRng,
    ) -> (complete: bool)
        requires
            old(self).wf(),
            pool.wf(),
            pool.adj_symmetric(),
            pool.no_dead_ends(),
            old(self).valid_in(*pool),
            old(self).chained_in(*pool),
            targets@.len() == pool.nodes@.len(),
        ensures
            final(self).wf(),
            final(self).start_node == old(self).start_node,
            final(self).valid_in(*pool),
            final(self).chained_in(*pool),
            complete ==> targets@[final(self).final_node_spec().0 as int],
            targets@[old(self).final_node_spec().0 as int] ==> complete,
            // Starting from an empty path, only the walk's final position
            // can sit in the targets: the walk stops the moment it lands
            // there.
            old(self).path@.len() == 0
                ==> forall|k: int| 0 <= k < final(self).total_path_spec().len() - 1
                    ==> !targets@[(#[trigger] final(self).total_path_spec()[k]).0 as int],
    {
        let head_at_entry = self.final_node();
        proof {
            if self.path@.len() > 0 {
                assert(self.path@[self.path@.len() - 1] == head_at_entry);
            }
            assert(pool.valid(head_at_entry));
        }
        if targets[head_at_entry.0] {
            return true;
        }
        let mut fuel: u64 = u64::MAX;
        loop
            invariant
                self.wf(),
                pool.wf(),
                pool.adj_symmetric(),
                pool.no_dead_ends(),
                self.valid_in(*pool),
                self.chained_in(*pool),
                self.start_node == old(self).start_node,
                targets@.len() == pool.nodes@.len(),
                !targets@[old(self).final_node_spec().0 as int],
                old(self).path@.len() == 0
                    ==> forall|k: int| 0 <= k < self.total_path_spec().len() - 1
                        ==> !targets@[(#[trigger] self.total_path_spec()[k]).0 as int],
            ensures
                self.wf(),
                self.valid_in(*pool),
                self.chained_in(*pool),
                self.start_node == old(self).start_node,
                targets@.len() == pool.nodes@.len(),
                old(self).path@.len() == 0
                    ==> forall|k: int| 0 <= k < self.total_path_spec().len() - 1
                        ==> !targets@[(#[trigger] self.total_path_spec()[k]).0 as int],
            decreases fuel,
        {
            let head = self.final_node();
            proof {
                if self.path@.len() > 0 {
                    assert(self.path@[self.path@.len() - 1] == head);
                }
                assert(pool.valid(head));
                assert(pool.nodes@[head.0 as int].adjacencies@.len() > 0);
            }
            if targets[head.0] {
                return true;
            }
            if fuel == 0 {
                return false;
            }
            let ghost before_step = *self;
            self.random_loop_erased_step(pool, rng);
            proof {
                if old(self).path@.len() == 0 {
                    let nb = choose|nb: NodeId|
                        pool.adjacent(before_step.final_node_spec(), nb)
                        && #[trigger] step_spec(before_step, *self, nb);
                    lemma_step_keeps_old_tail_outside(
                        before_step, *self, nb, targets@, head);
                }
            }
            fuel = fuel - 1;
        }
    }

    /// Carves the walked path into the pool: every consecutive pair along
    /// the full path, start included, becomes a bidirectional passage.
    pub fn carve_path<T>(&self, pool: &mut Pool<T>)
        requires
            old(pool).wf(),
            self.valid_in(*old(pool)),
            self.chained_in(*old(pool)),
        ensures
            final(pool).wf(),
            final(pool).nodes@.len() == old(pool).nodes@.len(),
            forall|a: NodeId, b: NodeId|
                final(pool).adjacent(a, b) == old(pool).adjacent(a, b),
            forall|i: int| 0 <= i < old(pool).nodes@.len() ==> {
                &&& (#[trigger] final(pool).nodes@[i]).payload == old(pool).nodes@[i].payload
                &&& final(pool).nodes@[i].id == old(pool).nodes@[i].id
                &&& final(pool).nodes@[i].adjacencies@ == old(pool).nodes@[i].adjacencies@
            },
            forall|a: NodeId, b: NodeId| old(pool).linked(a, b) ==> final(pool).linked(a, b),
            forall|k: int| 0 <= k < self.total_path_spec().len() - 1
                ==> final(pool).linked(
                        #[trigger] self.total_path_spec()[k],
                        self.total_path_spec()[k + 1],
                    )
                    && final(pool).linked(
                        self.total_path_spec()[k + 1],
                        self.total_path_spec()[k],
                    ),
            forall|a: NodeId, b: NodeId| #[trigger] final(pool).linked(a, b)
                ==> old(pool).linked(a, b)
                    || exists|k: int|
                        0 <= k < self.total_path_spec().len() - 1
                        && ((a == self.total_path_spec()[k]
                                && b == #[trigger] self.total_path_spec()[k + 1])
                            || (b == self.total_path_spec()[k]
                                && a == self.total_path_spec()[k + 1])),
            // On a simple path none of whose passages existed yet, carving
            // adds exactly two directed links per consecutive pair.
            self.wf() && (forall|k: int| 0 <= k < self.total_path_spec().len() - 1
                ==> !old(pool).linked(
                        #[trigger] self.total_path_spec()[k], self.total_path_spec()[k + 1])
                    && !old(pool).linked(
                        self.total_path_spec()[k + 1], self.total_path_spec()[k]))
                ==> links_total(final(pool).nodes@, old(pool).nodes@.len() as int)
                    == links_total(old(pool).nodes@, old(pool).nodes@.len() as int)
                        + 2 * (self.total_path_spec().len() - 1),
    {
        let path = self.total_path();
        let ghost tp = self.total_path_spec();
        let ghost fresh = self.wf() && (forall|j: int| 0 <= j < tp.len() - 1
            ==> !old(pool).linked(#[trigger] tp[j], tp[j + 1])
                && !old(pool).linked(tp[j + 1], tp[j]));
        proof {
            if self.wf() {
                assert forall|m1: int, m2: int| 0 <= m1 < m2 < tp.len()
                    implies tp[m1] != tp[m2] by {
                    if m1 == 0 {
                        assert(self.path@.contains(tp[m2])) by {
                            assert(self.path@[m2 - 1] == tp[m2]);
                        }
                    }
                }
            }
        }
        let mut k: usize = 0;
        if path.len() == 0 {
            return;
        }
        while k < path.len() - 1
            invariant
                pool.wf(),
                path@ == tp,
                tp == self.total_path_spec(),
                path@.len() >= 1,
                k <= path@.len() - 1,
                pool.nodes@.len() == old(pool).nodes@.len(),
                self.valid_in(*old(pool)),
                self.chained_in(*old(pool)),
                fresh == (self.wf() && (forall|j: int| 0 <= j < tp.len() - 1
                    ==> !old(pool).linked(#[trigger] tp[j], tp[j + 1])
                        && !old(pool).linked(tp[j + 1], tp[j]))),
                fresh ==> forall|m1: int, m2: int| 0 <= m1 < m2 < tp.len()
                    ==> tp[m1] != tp[m2],
                fresh ==> links_total(pool.nodes@, old(pool).nodes@.len() as int)
                    == links_total(old(pool).nodes@, old(pool).nodes@.len() as int) + 2 * k,
                forall|a: NodeId, b: NodeId|
                    pool.adjacent(a, b) == old(pool).adjacent(a, b),
                forall|i: int| 0 <= i < old(pool).nodes@.len() ==> {
                    &&& (#[trigger] pool.nodes@[i]).payload == old(pool).nodes@[i].payload
                    &&& pool.nodes@[i].id == old(pool).nodes@[i].id
                    &&& pool.nodes@[i].adjacencies@ == old(pool).nodes@[i].adjacencies@
                },
                forall|a: NodeId, b: NodeId| old(pool).linked(a, b) ==> pool.linked(a, b),
                forall|j: int| 0 <= j < k
                    ==> pool.linked(#[trigger] tp[j], tp[j + 1])
                        && pool.linked(tp[j + 1], tp[j]),
                forall|a: NodeId, b: NodeId| #[trigger] pool.linked(a, b)
                    ==> old(pool).linked(a, b)
                        || exists|j: int|
                            0 <= j < k
                            && ((a == tp[j] && b == #[trigger] tp[j + 1])
                                || (b == tp[j] && a == tp[j + 1])),
            decreases path@.len() - 1 - k,
        {
            let here = path[k];
            let there = path[k + 1];
            proof {
                assert(pool.adjacent(here, there));
                assert(pool.adjacent(there, here));
            }
            let ghost pre_pool = *pool;
            pool.link_cells(here, there, true);
            proof {
                if fresh {
                    // This pair was never carved before: not initially, and
                    // not by an earlier step of this very walk, since the
                    // path repeats no node.
                    assert(!pre_pool.linked(here, there) && !pre_pool.linked(there, here)) by {
                        if pre_pool.linked(here, there) || pre_pool.linked(there, here) {
                            assert(!old(pool).linked(here, there)
                                && !old(pool).linked(there, here)) by {
                                assert(tp[k as int] == here && tp[k as int + 1] == there);
                                assert(!old(pool).linked(tp[k as int], tp[k as int + 1]));
                                assert(!old(pool).linked(tp[k as int + 1], tp[k as int]));
                            }
                            let pj = choose|pj: int|
                                0 <= pj < k
                                && ((here == tp[pj] && there == #[trigger] tp[pj + 1])
                                    || (there == tp[pj] && here == tp[pj + 1]));
                            assert(tp[k as int] == here && tp[k as int + 1] == there);
                            if here == tp[pj] && there == tp[pj + 1] {
                                assert(pj == k as int) by {
                                    if pj < k as int {
                                        assert(tp[pj] != tp[k as int]);
                                    }
                                    if pj > k as int {
                                        assert(tp[k as int] != tp[pj]);
                                    }
                                }
                                assert(!old(pool).linked(tp[pj], tp[pj + 1]));
                            } else {
                                assert(there == tp[pj] && here == tp[pj + 1]);
                                assert(pj + 1 == k as int) by {
                                    if pj + 1 < k as int {
                                        assert(tp[pj + 1] != tp[k as int]);
                                    }
                                    if pj + 1 > k as int {
                                        assert(tp[k as int] != tp[pj + 1]);
                                    }
                                }
                                assert(pj == k as int + 1) by {
                                    if pj < k as int + 1 {
                                        assert(tp[pj] != tp[k as int + 1]);
                                    }
                                    if pj > k as int + 1 {
                                        assert(tp[k as int + 1] != tp[pj]);
                                    }
                                }
                            }
                            assert(false);
                        }
                    }
                    lemma_links_total_update2(
                        pre_pool.nodes@,
                        pool.nodes@,
                        here.0 as int,
                        there.0 as int,
                        old(pool).nodes@.len() as int,
                    );
                }
                assert forall|a: NodeId, b: NodeId| #[trigger] pool.linked(a, b)
                    implies old(pool).linked(a, b)
                        || exists|j: int|
                            0 <= j < k + 1
                            && ((a == tp[j] && b == #[trigger] tp[j + 1])
                                || (b == tp[j] && a == tp[j + 1])) by {
                    if (a == here && b == there) || (b == here && a == there) {
                        assert(tp[k as int] == here && tp[k as int + 1] == there);
                    }
                }
            }
            k += 1;
        }
    }
}

/// After carving, every node of a walked path reaches the path's final
/// node through passages, and back.
proof fn lemma_carved_path_reaches_end<T>(pool: Pool<T>, tp: Seq<NodeId>, k: int)
    requires
        tp.len() > 0,
        0 <= k < tp.len(),
        forall|j: int| 0 <= j < tp.len() ==> (#[trigger] tp[j]).0 < pool.nodes@.len(),
        forall|j: int| 0 <= j < tp.len() - 1
            ==> pool.linked(#[trigger] tp[j], tp[j + 1]) && pool.linked(tp[j + 1], tp[j]),
    ensures
        pool.link_reach(tp[k], tp[tp.len() - 1]),
        pool.link_reach(tp[tp.len() - 1], tp[k]),
    decreases tp.len() - k,
{
    if k == tp.len() - 1 {
        pool.lemma_link_reach_refl(tp[k]);
    } else {
        lemma_carved_path_reaches_end(pool, tp, k + 1);
        assert(pool.link_steps(tp[k], tp[k], 0));
        assert(pool.link_steps(tp[k], tp[k + 1], 1));
        assert(pool.link_steps(tp[k + 1], tp[k + 1], 0));
        assert(pool.link_steps(tp[k + 1], tp[k], 1));
        assert(pool.link_reach(tp[k], tp[k + 1]));
        assert(pool.link_reach(tp[k + 1], tp[k]));
        pool.lemma_link_reach_trans(tp[k], tp[k + 1], tp[tp.len() - 1]);
        pool.lemma_link_reach_trans(tp[tp.len() - 1], tp[k + 1], tp[k]);
    }
}

/// One loop-erased step keeps every non-final node of the walk outside a
/// target set, provided the walk's previous nodes were outside it and its
/// previous head was too.
proof fn lemma_step_keeps_old_tail_outside(
    pre: Walker,
    post: Walker,
    next: NodeId,
    targets: Seq<bool>,
    head: NodeId,
)
    requires
        pre.wf(),
        step_spec(pre, post, next),
        head == pre.final_node_spec(),
        !targets[head.0 as int],
        forall|k: int| 0 <= k < pre.total_path_spec().len() - 1
            ==> !targets[(#[trigger] pre.total_path_spec()[k]).0 as int],
    ensures
        forall|k: int| 0 <= k < post.total_path_spec().len() - 1
            ==> !targets[(#[trigger] post.total_path_spec()[k]).0 as int],
{
    let pt = pre.total_path_spec();
    let qt = post.total_path_spec();
    assert forall|k: int| 0 <= k < qt.len() - 1
        implies !targets[(#[trigger] qt[k]).0 as int] by {
        if next == pre.start_node {
        } else if pre.path@.contains(next) {
            let i = choose|i: int|
                0 <= i < pre.path@.len() && pre.path@[i] == next
                && post.path@ == #[trigger] pre.path@.subrange(0, i);
            assert(qt[k] == pt[k]);
        } else {
            assert(qt.len() == pt.len() + 1);
            if k < pt.len() - 1 {
                assert(qt[k] == pt[k]);
            } else {
                assert(qt[k] == pt[pt.len() - 1]);
                assert(pt[pt.len() - 1] == head) by {
                    if pre.path@.len() > 0 {
                        assert(pt[pt.len() - 1] == pre.path@.last());
                    }
                }
            }
        }
    }
}

impl FlatSquareGrid {
    /// Wilson's algorithm: starting from a single visited node, repeatedly
    /// pick an unvisited node, walk a loop-erased random walk from it until
    /// the walk hits the visited region, then carve the whole walked path
    /// and mark it visited. Reports whether every walk landed within its
    /// step budget.
    #[verifier::rlimit(60)]
    pub fn wilson(&mut self, rng: &mut rand::rngs::ThreadRng) -> (complete: bool)
        requires
            old(self).wf(),
        ensures
            final(self).wf(),
            final(self).width == old(self).width,
            final(self).height == old(self).height,
            final(self).node_grid == old(self).node_grid,
            old(self).node_pool.links_extended(final(self).node_pool),
            complete ==> final(self).node_pool.link_connected(),
            old(self).node_pool.nodes@.len() <= 1 ==> complete,
            old(self).untouched() && complete && old(self).node_pool.nodes@.len() > 0
                ==> links_total(
                    final(self).node_pool.nodes@,
                    old(self).node_pool.nodes@.len() as int,
                ) == 2 * (old(self).node_pool.nodes@.len() - 1),
    {
        let n = self.node_pool.nodes.len();
        let ghost fresh = old(self).untouched();
        let mut starts_list = self.node_pool.iter_node_ids();
        let mut visited: Vec<bool> = Vec::new();
        let mut c: usize = 0;
        while c < n
            invariant
                c <= n,
                visited@.len() == c,
                forall|j: int| 0 <= j < c ==> !(#[trigger] visited@[j]),
            decreases n - c,
        {
            visited.push(false);
            c += 1;
        }
        let ghost anchor = NodeId((n - 1) as usize);
        proof {
            lemma_marked_of_clear(visited@, n as int);
            if fresh {
                lemma_links_total_empty(self.node_pool.nodes@, n as int);
            }
        }
        let ghost v_init = visited@;
        match starts_list.pop() {
            Some(needle) => {
                visited[needle.0] = true;
                proof {
                    assert(needle == anchor);
                    self.node_pool.lemma_link_reach_refl(anchor);
                    lemma_marked_set(v_init, visited@, needle.0 as int, n as int);
                    lemma_marked_le(visited@, n as int);
                }
            },
            None => {
                return true;
            },
        }
        while starts_list.len() > 0
            invariant
                n == self.node_pool.nodes@.len(),
                n > 0,
                self.wf(),
                self.width == old(self).width,
                self.height == old(self).height,
                self.node_grid == old(self).node_grid,
                old(self).node_pool.links_extended(self.node_pool),
                visited@.len() == n,
                starts_list@.len() <= n - 1,
                forall|k: int| 0 <= k < starts_list@.len()
                    ==> (#[trigger] starts_list@[k]).0 == k,
                anchor == NodeId((n - 1) as usize),
                visited@[n - 1],
                forall|i: int| starts_list@.len() <= i < n ==> #[trigger] visited@[i],
                forall|i: int| 0 <= i < n && #[trigger] visited@[i]
                    ==> self.node_pool.link_reach(anchor, NodeId(i as usize))
                        && self.node_pool.link_reach(NodeId(i as usize), anchor),
                fresh == old(self).untouched(),
                1 <= marked_to(visited@, n as int) <= n,
                fresh ==> forall|i: int| 0 <= i < n && !visited@[i]
                    ==> (#[trigger] self.node_pool.nodes@[i]).links@.len() == 0,
                fresh ==> forall|a: NodeId, b: NodeId|
                    #[trigger] self.node_pool.linked(a, b) ==> self.node_pool.linked(b, a),
                fresh ==> links_total(self.node_pool.nodes@, n as int)
                    == 2 * (marked_to(visited@, n as int) - 1),
            ensures
                n == self.node_pool.nodes@.len(),
                self.wf(),
                self.width == old(self).width,
                self.height == old(self).height,
                self.node_grid == old(self).node_grid,
                old(self).node_pool.links_extended(self.node_pool),
                visited@.len() == n,
                forall|i: int| starts_list@.len() <= i < n ==> #[trigger] visited@[i],
                starts_list@.len() == 0,
                forall|i: int| 0 <= i < n && #[trigger] visited@[i]
                    ==> self.node_pool.link_reach(anchor, NodeId(i as usize))
                        && self.node_pool.link_reach(NodeId(i as usize), anchor),
                fresh ==> links_total(self.node_pool.nodes@, n as int)
                    == 2 * (marked_to(visited@, n as int) - 1),
            decreases starts_list@.len(),
        {
            let ghost pre = *self;
            let start = match starts_list.pop() {
                Some(start_id) => start_id,
                None => {
                    proof {
                        assert(false);
                    }
                    NodeId(0)
                },
            };
            proof {
                assert(n >= 2);
                self.lemma_adjacency_shape();
            }
            let mut path_walker = Walker::new(start);
            proof {
                assert(path_walker.total_path_spec().len() == 1);
            }
            let walked = path_walker.loop_erased_walk_into_haystack(
                &self.node_pool,
                &visited,
                rng,
            );
            if !walked {
                return false;
            }
            let path_nodes = path_walker.total_path();
            proof {
                if fresh {
                    // None of the path's passages exists yet: every node
                    // before the walk's end is unvisited, so it has none,
                    // and the end's would-be passage back is excluded by
                    // link symmetry.
                    let tp = path_walker.total_path_spec();
                    assert forall|j: int| 0 <= j < tp.len() - 1
                        implies !self.node_pool.linked(#[trigger] tp[j], tp[j + 1])
                            && !self.node_pool.linked(tp[j + 1], tp[j]) by {
                        assert(!visited@[tp[j].0 as int]);
                        assert(self.node_pool.nodes@[tp[j].0 as int].links@.len() == 0);
                        if self.node_pool.linked(tp[j], tp[j + 1]) {
                            let q = choose|q: int|
                                0 <= q < self.node_pool.nodes@[tp[j].0 as int].links@.len()
                                && self.node_pool.nodes@[tp[j].0 as int].links@[q]
                                    == tp[j + 1];
                        }
                        if self.node_pool.linked(tp[j + 1], tp[j]) {
                            assert(self.node_pool.linked(tp[j], tp[j + 1]));
                        }
                    }
                }
            }
            let ghost marked_before_carve = marked_to(visited@, n as int);
            path_walker.carve_path(&mut self.node_pool);
            proof {
                assert(pre.node_pool.links_extended(self.node_pool));
                old(self).node_pool.lemma_links_extended_trans(pre.node_pool, self.node_pool);
                // Every node of the carved path now reaches the visited
                // region's anchor, through the path's end.
                let tp = path_walker.total_path_spec();
                let last = tp[tp.len() - 1];
                assert(last == path_walker.final_node_spec()) by {
                    if path_walker.path@.len() > 0 {
                        assert(tp[tp.len() - 1] == path_walker.path@.last());
                    }
                }
                assert(visited@[last.0 as int]);
                assert(pre.node_pool.link_reach(anchor, last)
                    && pre.node_pool.link_reach(last, anchor));
                pre.node_pool.lemma_link_reach_mono(self.node_pool, anchor, last);
                pre.node_pool.lemma_link_reach_mono(self.node_pool, last, anchor);
                assert forall|k: int| 0 <= k < tp.len()
                    implies self.node_pool.link_reach(anchor, #[trigger] tp[k])
                        && self.node_pool.link_reach(tp[k], anchor) by {
                    lemma_carved_path_reaches_end(self.node_pool, tp, k);
                    self.node_pool.lemma_link_reach_trans(anchor, last, tp[k]);
                    self.node_pool.lemma_link_reach_trans(tp[k], last, anchor);
                }
                assert forall|i: int| 0 <= i < n && #[trigger] visited@[i]
                    implies self.node_pool.link_reach(anchor, NodeId(i as usize))
                        && self.node_pool.link_reach(NodeId(i as usize), anchor) by {
                    pre.node_pool.lemma_link_reach_mono(
                        self.node_pool, anchor, NodeId(i as usize));
                    pre.node_pool.lemma_link_reach_mono(
                        self.node_pool, NodeId(i as usize), anchor);
                }
                assert forall|r1: int, c1: int, r2: int, c2: int|
                    self.in_bounds(r1, c1) && self.in_bounds(r2, c2)
                    implies (#[trigger] self.node_pool.adjacent(
                        self.id_at(r1, c1), self.id_at(r2, c2))
                        == self.orthogonal(r1, c1, r2, c2)) by {
                    assert(pre.in_bounds(r1, c1) && pre.in_bounds(r2, c2));
                    assert(pre.node_pool.adjacent(pre.id_at(r1, c1), pre.id_at(r2, c2))
                        == pre.orthogonal(r1, c1, r2, c2));
                    assert(pre.id_at(r1, c1) == self.id_at(r1, c1));
                    assert(pre.id_at(r2, c2) == self.id_at(r2, c2));
                }
                assert forall|r: int, c: int| self.in_bounds(r, c)
                    implies (#[trigger] self.cell_at(r, c)) == pre.cell_at(r, c) by {
                    pre.lemma_idx_bound(r, c);
                }
                assert(self.dims_ok());
                assert(self.cells_ok());
                assert(self.wf());
            }
            let ghost v_mark0 = visited@;
            proof {
                if fresh {
                    let tp = path_walker.total_path_spec();
                    assert forall|m1: int, m2: int| 0 <= m1 < m2 < tp.len()
                        implies tp[m1] != tp[m2] by {
                        if m1 == 0 {
                            assert(path_walker.path@.contains(tp[m2])) by {
                                assert(path_walker.path@[m2 - 1] == tp[m2]);
                            }
                        }
                    }
                    // Carving keeps the round's links symmetric: every
                    // added passage is one of the path's mutual pairs.
                    assert forall|a: NodeId, b: NodeId|
                        #[trigger] self.node_pool.linked(a, b)
                        implies self.node_pool.linked(b, a) by {
                        if pre.node_pool.linked(a, b) {
                            assert(pre.node_pool.linked(b, a));
                        } else {
                            let pj = choose|pj: int|
                                0 <= pj < tp.len() - 1
                                && ((a == tp[pj] && b == #[trigger] tp[pj + 1])
                                    || (b == tp[pj] && a == tp[pj + 1]));
                            assert(self.node_pool.linked(tp[pj], tp[pj + 1]));
                            assert(self.node_pool.linked(tp[pj + 1], tp[pj]));
                        }
                    }
                }
            }
            let mut t: usize = 0;
            while t < path_nodes.len()
                invariant
                    n == self.node_pool.nodes@.len(),
                    visited@.len() == n,
                    v_mark0.len() == n,
                    forall|i: int| 0 <= i < n && v_mark0[i] ==> #[trigger] visited@[i],
                    t <= path_nodes@.len(),
                    path_nodes@.len() >= 1,
                    forall|k: int| 0 <= k < path_nodes@.len()
                        ==> (#[trigger] path_nodes@[k]).0 < n,
                    forall|k: int| 0 <= k < path_nodes@.len()
                        ==> self.node_pool.link_reach(anchor, #[trigger] path_nodes@[k])
                            && self.node_pool.link_reach(path_nodes@[k], anchor),
                    forall|i: int| 0 <= i < n && #[trigger] visited@[i]
                        ==> self.node_pool.link_reach(anchor, NodeId(i as usize))
                            && self.node_pool.link_reach(NodeId(i as usize), anchor),
                    forall|k: int| 0 <= k < t
                        ==> visited@[(#[trigger] path_nodes@[k]).0 as int],
                    forall|m1: int, m2: int| 0 <= m1 < m2 < path_nodes@.len()
                        ==> path_nodes@[m1] != path_nodes@[m2],
                    forall|k: int| 0 <= k < path_nodes@.len() - 1
                        ==> !v_mark0[(#[trigger] path_nodes@[k]).0 as int],
                    v_mark0[path_nodes@[path_nodes@.len() - 1].0 as int],
                    forall|i: int| 0 <= i < n && #[trigger] visited@[i]
                        ==> v_mark0[i] || exists|k2: int|
                            0 <= k2 < t && (#[trigger] path_nodes@[k2]).0 as int == i,
                    marked_to(visited@, n as int) == marked_before_carve
                        + (if (t as int) <= path_nodes@.len() - 1 {
                            t as int
                        } else {
                            path_nodes@.len() - 1
                        }),
                    marked_to(visited@, n as int) <= n,
                decreases path_nodes@.len() - t,
            {
                let node = path_nodes[t];
                let ghost v_before = visited@;
                visited[node.0] = true;
                proof {
                    assert(NodeId(node.0 as int as usize) == node);
                    if (t as int) < path_nodes@.len() - 1 {
                        assert(!v_before[node.0 as int]) by {
                            if v_before[node.0 as int] {
                                let k2 = choose|k2: int|
                                    0 <= k2 < t
                                    && (#[trigger] path_nodes@[k2]).0 as int
                                        == node.0 as int;
                                assert(path_nodes@[k2] == node);
                            }
                        }
                        lemma_marked_set(v_before, visited@, node.0 as int, n as int);
                    } else {
                        assert(v_before[node.0 as int]);
                        assert(visited@ =~= v_before);
                    }
                    lemma_marked_le(visited@, n as int);
                    assert forall|i: int| 0 <= i < n && #[trigger] visited@[i]
                        implies v_mark0[i] || exists|k2: int|
                            0 <= k2 < t + 1
                            && (#[trigger] path_nodes@[k2]).0 as int == i by {
                        if i != node.0 as int {
                        } else {
                            assert(path_nodes@[t as int].0 as int == i);
                        }
                    }
                }
                t += 1;
            }
            proof {
                assert(path_nodes@[0] == start);
                assert(visited@[start.0 as int]);
                assert forall|i: int| starts_list@.len() <= i < n
                    implies #[trigger] visited@[i] by {
                    if i != start.0 as int {
                        assert(v_mark0[i]);
                    }
                }
                if fresh {
                    let tp = path_walker.total_path_spec();
                    // Nodes still unvisited lie off the carved path, so
                    // their link sets are untouched and empty.
                    assert forall|i: int| 0 <= i < n && !visited@[i]
                        implies (#[trigger] self.node_pool.nodes@[i]).links@.len()
                            == 0 by {
                        assert(!v_mark0[i]);
                        if self.node_pool.nodes@[i].links@.len() > 0 {
                            let x = self.node_pool.nodes@[i].links@[0];
                            assert(self.node_pool.nodes@[i].links@.contains(x));
                            assert(self.node_pool.linked(NodeId(i as usize), x));
                            if pre.node_pool.linked(NodeId(i as usize), x) {
                                assert(pre.node_pool.nodes@[i].links@.len() == 0);
                                let q = choose|q: int|
                                    0 <= q < pre.node_pool.nodes@[i].links@.len()
                                    && pre.node_pool.nodes@[i].links@[q] == x;
                            } else {
                                let pj = choose|pj: int|
                                    0 <= pj < tp.len() - 1
                                    && ((NodeId(i as usize) == tp[pj]
                                            && x == #[trigger] tp[pj + 1])
                                        || (x == tp[pj]
                                            && NodeId(i as usize) == tp[pj + 1]));
                                assert(visited@[tp[pj].0 as int]);
                                assert(visited@[tp[pj + 1].0 as int]);
                            }
                        }
                    }
                }
            }
        }
        proof {
            assert forall|a: NodeId, b: NodeId|
                self.node_pool.valid(a) && self.node_pool.valid(b)
                implies #[trigger] self.node_pool.link_reach(a, b) by {
                assert(visited@[a.0 as int]);
                assert(visited@[b.0 as int]);
                assert(NodeId(a.0 as int as usize) == a);
                assert(NodeId(b.0 as int as usize) == b);
                self.node_pool.lemma_link_reach_trans(a, anchor, b);
            }
            if fresh && n > 0 {
                lemma_marked_full(visited@, n as int);
            }
        }
        true
    }
}

} // verus!
