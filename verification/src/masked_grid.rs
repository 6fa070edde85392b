//! A rectangular grid with holes: a boolean mask decides which positions
//! hold cells. Cells are adjacent to their orthogonal masked neighbors.
//! This module also owns the maze binary format: four direction bits per
//! cell, reciprocity-checked on the way back in.

use vstd::prelude::*;

use crate::grid::{coords_match, lemma_coords_of_index, lemma_push_steps, Direction};
use crate::pool::{links_total, FrontierSearchResult, Node, NodeId, Pool};

verus! {

/// Which positions of a `width` by `height` rectangle hold cells, stored
/// row-major.
#[derive(Debug)]
pub struct Mask {
    pub width: usize,
    pub height: usize,
    pub cells: Vec<bool>,
}

impl Mask {
    pub open spec fn wf(self) -> bool {
        &&& self.cells@.len() == self.width * self.height
        &&& self.width * self.height <= usize::MAX
    }

    /// The mask holds a cell at `(r, c)`.
    pub open spec fn has(self, r: int, c: int) -> bool {
        &&& 0 <= r < self.height
        &&& 0 <= c < self.width
        &&& self.cells@[r * self.width + c]
    }

    /// A mask that holds every position of the rectangle.
    pub fn new_full(width: usize, height: usize) -> (r: Mask)
        requires
            width * height <= usize::MAX,
        ensures
            r.wf(),
            r.width == width,
            r.height == height,
            forall|rr: int, cc: int| 0 <= rr < height && 0 <= cc < width
                ==> #[trigger] r.has(rr, cc),
    {
        let total = width * height;
        let mut cells: Vec<bool> = Vec::new();
        let mut k: usize = 0;
        while k < total
            invariant
                k <= total,
                cells@.len() == k,
                forall|j: int| 0 <= j < k ==> #[trigger] cells@[j],
            decreases total - k,
        {
            cells.push(true);
            k += 1;
        }
        let r = Mask { width, height, cells };
        proof {
            assert forall|rr: int, cc: int| 0 <= rr < height && 0 <= cc < width
                implies #[trigger] r.has(rr, cc) by {
                assert(0 <= rr * width + cc < width * height) by (nonlinear_arith)
                    requires
                        0 <= rr < height,
                        0 <= cc < width,
                {}
            }
        }
        r
    }

    /// A mask built directly from a row-major vector of booleans.
    pub fn new(width: usize, height: usize, cells: Vec<bool>) -> (r: Mask)
        requires
            cells@.len() == width * height,
        ensures
            r.wf(),
            r.width == width,
            r.height == height,
            r.cells@ == cells@,
    {
        proof {
            vstd::std_specs::vec::axiom_spec_len(&cells);
        }
        Mask { width, height, cells }
    }

    /// Whether the mask holds a cell at `(row, col)`. Positions off the
    /// rectangle hold none.
    pub fn contains(&self, row: usize, col: usize) -> (r: bool)
        requires
            self.wf(),
        ensures
            r == self.has(row as int, col as int),
    {
        if row < self.height && col < self.width {
            proof {
                assert(0 <= row * self.width + col < self.width * self.height)
                    by (nonlinear_arith)
                    requires
                        0 <= (row as int) < self.height,
                        0 <= (col as int) < self.width,
                {}
            }
            self.cells[row * self.width + col]
        } else {
            false
        }
    }
}

/// How many of the first `k` row-major positions the mask holds: the rank
/// that numbers the pool nodes of a masked grid.
pub open spec fn masked_count(m: Mask, k: int) -> int
    decreases k,
{
    if k <= 0 {
        0
    } else {
        masked_count(m, k - 1) + if m.cells@[k - 1] {
            1int
        } else {
            0int
        }
    }
}

pub proof fn lemma_masked_count_le(m: Mask, k: int)
    requires
        0 <= k,
    ensures
        0 <= masked_count(m, k) <= k,
    decreases k,
{
    if k > 0 {
        lemma_masked_count_le(m, k - 1);
    }
}

/// A mask holding every position counts them all.
pub proof fn lemma_masked_count_full(m: Mask, k: int)
    requires
        0 <= k <= m.cells@.len(),
        forall|j: int| 0 <= j < m.cells@.len() ==> #[trigger] m.cells@[j],
    ensures
        masked_count(m, k) == k,
    decreases k,
{
    if k > 0 {
        lemma_masked_count_full(m, k - 1);
    }
}

/// The rank strictly grows past any held position.
pub proof fn lemma_masked_count_strict(m: Mask, k1: int, k2: int)
    requires
        0 <= k1 < k2,
        m.cells@[k1],
    ensures
        masked_count(m, k1) < masked_count(m, k2),
    decreases k2,
{
    if k1 == k2 - 1 {
        lemma_masked_count_le(m, k1);
    } else {
        lemma_masked_count_strict(m, k1, k2 - 1);
    }
}

/// The rank never grows faster than the positions.
pub proof fn lemma_masked_count_mono(m: Mask, k1: int, k2: int)
    requires
        0 <= k1 <= k2,
    ensures
        masked_count(m, k1) <= masked_count(m, k2),
    decreases k2,
{
    if k1 < k2 {
        lemma_masked_count_mono(m, k1, k2 - 1);
    }
}

/// Every rank below the total is taken by exactly one held position.
pub proof fn lemma_masked_count_witness(m: Mask, k: int, i: int)
    requires
        0 <= i < masked_count(m, k),
        k >= 0,
    ensures
        exists|t: int| 0 <= t < k && m.cells@[t] && #[trigger] masked_count(m, t) == i,
    decreases k,
{
    lemma_masked_count_le(m, k - 1);
    if i < masked_count(m, k - 1) {
        lemma_masked_count_witness(m, k - 1, i);
    } else {
        assert(m.cells@[k - 1] && masked_count(m, k - 1) == i);
    }
}

/// A grid of cells selected by a mask, backed by a node pool: one node per
/// held position, numbered row-major, adjacent exactly to orthogonal held
/// neighbors.
#[derive(Debug)]
pub struct MaskedGrid {
    pub pool: Pool<(usize, usize)>,
    pub mask: Mask,
    pub width: usize,
    pub height: usize,
    pub cell_grid: Vec<Option<NodeId>>,
}

impl MaskedGrid {
    /// `(r, c)` lies on the rectangle.
    pub open spec fn in_bounds(self, r: int, c: int) -> bool {
        0 <= r < self.height && 0 <= c < self.width
    }

    /// Two held positions touch orthogonally.
    pub open spec fn orthogonal(self, r1: int, c1: int, r2: int, c2: int) -> bool {
        self.mask.has(r1, c1) && self.mask.has(r2, c2)
        && ((r1 == r2 && (c1 - c2 == 1 || c2 - c1 == 1))
            || (c1 == c2 && (r1 - r2 == 1 || r2 - r1 == 1)))
    }

    /// The pool id of the cell at a held position: its row-major rank.
    pub open spec fn id_of(self, r: int, c: int) -> NodeId {
        NodeId(masked_count(self.mask, r * self.width + c) as usize)
    }

    /// The cells at two held positions are linked by a passage.
    pub open spec fn linked_at_spec(self, r1: int, c1: int, r2: int, c2: int) -> bool {
        self.mask.has(r1, c1) && self.mask.has(r2, c2)
        && self.pool.linked(self.id_of(r1, c1), self.id_of(r2, c2))
    }

    /// Full well-formedness: dimensions agree, the id table matches the
    /// ranks, payloads carry their own position, and pool adjacency is
    /// exactly orthogonal neighborhood among held positions.
    pub open spec fn wf(self) -> bool {
        &&& self.mask.wf()
        &&& self.width == self.mask.width
        &&& self.height == self.mask.height
        &&& self.pool.wf()
        &&& self.cell_grid@.len() == self.width * self.height
        &&& self.pool.nodes@.len()
            == masked_count(self.mask, (self.width * self.height) as int)
        &&& forall|r: int, c: int| self.in_bounds(r, c)
            ==> #[trigger] self.cell_grid@[r * self.width + c] == (if self.mask.has(r, c) {
                Some(self.id_of(r, c))
            } else {
                None::<NodeId>
            })
        &&& forall|r: int, c: int| #[trigger] self.mask.has(r, c)
            ==> self.pool.nodes@[self.id_of(r, c).0 as int].payload
                == (r as usize, c as usize)
        &&& forall|r1: int, c1: int, r2: int, c2: int|
            self.mask.has(r1, c1) && self.mask.has(r2, c2)
            ==> (#[trigger] self.pool.adjacent(self.id_of(r1, c1), self.id_of(r2, c2))
                == self.orthogonal(r1, c1, r2, c2))
    }

    /// No passages are carved yet.
    pub open spec fn untouched(self) -> bool {
        forall|i: int| 0 <= i < self.pool.nodes@.len()
            ==> (#[trigger] self.pool.nodes@[i]).links@.len() == 0
    }

    /// Held positions map to valid, distinct pool ids.
    pub proof fn lemma_id_of_valid(self, r: int, c: int)
        requires
            self.wf(),
            self.mask.has(r, c),
        ensures
            self.id_of(r, c).0 < self.pool.nodes@.len(),
            self.id_of(r, c).0 as int == masked_count(self.mask, r * self.width + c),
    {
        assert(0 <= r * self.width + c < self.width * self.height) by (nonlinear_arith)
            requires
                0 <= r < self.height,
                0 <= c < self.width,
        {}
        lemma_masked_count_strict(
            self.mask,
            r * self.width + c,
            (self.width * self.height) as int,
        );
        lemma_masked_count_le(self.mask, r * self.width + c);
    }

    /// Distinct held positions get distinct ids.
    pub proof fn lemma_id_of_injective(self, r1: int, c1: int, r2: int, c2: int)
        requires
            self.wf(),
            self.mask.has(r1, c1),
            self.mask.has(r2, c2),
            self.id_of(r1, c1) == self.id_of(r2, c2),
        ensures
            r1 == r2 && c1 == c2,
    {
        self.lemma_id_of_valid(r1, c1);
        self.lemma_id_of_valid(r2, c2);
        let k1 = r1 * self.width + c1;
        let k2 = r2 * self.width + c2;
        if k1 < k2 {
            lemma_masked_count_strict(self.mask, k1, k2);
        } else if k2 < k1 {
            lemma_masked_count_strict(self.mask, k2, k1);
        } else {
            assert(r1 == r2 && c1 == c2) by (nonlinear_arith)
                requires
                    0 <= r1 < self.height,
                    0 <= r2 < self.height,
                    0 <= c1 < self.width,
                    0 <= c2 < self.width,
                    r1 * self.width + c1 == r2 * self.width + c2,
            {}
        }
    }

    /// Every pool node is the cell of exactly one held position, named by
    /// its payload.
    pub proof fn lemma_node_position(self, i: int)
        requires
            self.wf(),
            0 <= i < self.pool.nodes@.len(),
        ensures
            ({
                let payload = self.pool.nodes@[i].payload;
                &&& self.mask.has(payload.0 as int, payload.1 as int)
                &&& self.id_of(payload.0 as int, payload.1 as int).0 == i
            }),
    {
        let total = (self.width * self.height) as int;
        lemma_masked_count_witness(self.mask, total, i);
        let t = choose|t: int|
            0 <= t < total && self.mask.cells@[t] && #[trigger] masked_count(self.mask, t) == i;
        lemma_coords_of_index(self.width as int, self.height as int, t);
        let rc = choose|r: int, c: int|
            0 <= r < self.height && 0 <= c < self.width
            && #[trigger] coords_match(self.width as int, r, c, t);
        let r = rc.0;
        let c = rc.1;
        assert(self.mask.has(r, c));
        self.lemma_id_of_valid(r, c);
        assert(self.id_of(r, c).0 as int == i);
        assert(self.pool.nodes@[i].payload == (r as usize, c as usize));
    }
}

/// The node for held position `(r, c)` is fully built: right id and
/// payload, no links, and an adjacency set holding exactly the ids of the
/// orthogonal held neighbors.
pub open spec fn masked_node_ok(m: Mask, nodes: Seq<Node<(usize, usize)>>, r: int, c: int) -> bool {
    m.has(r, c) ==> {
        let node = nodes[masked_count(m, r * m.width + c)];
        &&& node.id == NodeId(masked_count(m, r * m.width + c) as usize)
        &&& node.links@.len() == 0
        &&& node.payload == (r as usize, c as usize)
        &&& node.adjacencies@.no_duplicates()
        &&& forall|y: NodeId| #[trigger] node.adjacencies@.contains(y) <==> {
            ||| (m.has(r - 1, c)
                && y == NodeId(masked_count(m, (r - 1) * m.width + c) as usize))
            ||| (m.has(r + 1, c)
                && y == NodeId(masked_count(m, (r + 1) * m.width + c) as usize))
            ||| (m.has(r, c - 1)
                && y == NodeId(masked_count(m, r * m.width + c - 1) as usize))
            ||| (m.has(r, c + 1)
                && y == NodeId(masked_count(m, r * m.width + c + 1) as usize))
        }
    }
}

impl MaskedGrid {
    /// A masked grid over the full rectangle.
    pub fn new_unmasked(width: usize, height: usize) -> (g: MaskedGrid)
        requires
            width * height <= usize::MAX,
        ensures
            g.wf(),
            g.untouched(),
            g.width == width,
            g.height == height,
            forall|r: int, c: int| g.in_bounds(r, c) ==> #[trigger] g.mask.has(r, c),
    {
        let mask = Mask::new_full(width, height);
        Self::new(width, height, mask)
    }

    /// Builds a masked grid from a mask: one pool node per held position,
    /// numbered row-major, adjacent exactly to its orthogonal held
    /// neighbors, with no passages carved.
    pub fn new(width: usize, height: usize, mask: Mask) -> (g: MaskedGrid)
        requires
            mask.wf(),
            mask.width == width,
            mask.height == height,
        ensures
            g.wf(),
            g.untouched(),
            g.width == width,
            g.height == height,
            g.mask == mask,
    {
        let total = width * height;
        // First number the held positions; no connections are made yet.
        let mut cell_grid: Vec<Option<NodeId>> = Vec::new();
        let mut count: usize = 0;
        let mut k: usize = 0;
        while k < total
            invariant
                mask.wf(),
                mask.width == width,
                mask.height == height,
                total == width * height,
                k <= total,
                cell_grid@.len() == k,
                count == masked_count(mask, k as int),
                count <= k,
                forall|j: int| 0 <= j < k ==> #[trigger] cell_grid@[j]
                    == (if mask.cells@[j] {
                        Some(NodeId(masked_count(mask, j) as usize))
                    } else {
                        None::<NodeId>
                    }),
            decreases total - k,
        {
            proof {
                lemma_masked_count_le(mask, k as int);
            }
            if mask.cells[k] {
                cell_grid.push(Some(NodeId(count)));
                count += 1;
            } else {
                cell_grid.push(None);
            }
            k += 1;
        }

        // Then stitch: every held position becomes a node holding the ids
        // of its orthogonal held neighbors.
        let mut nodes: Vec<Node<(usize, usize)>> = Vec::new();
        let mut row: usize = 0;
        while row < height
            invariant
                mask.wf(),
                mask.width == width,
                mask.height == height,
                total == width * height,
                cell_grid@.len() == total,
                forall|j: int| 0 <= j < total ==> #[trigger] cell_grid@[j]
                    == (if mask.cells@[j] {
                        Some(NodeId(masked_count(mask, j) as usize))
                    } else {
                        None::<NodeId>
                    }),
                row <= height,
                nodes@.len() == masked_count(mask, (row * width) as int),
                forall|r: int, c: int|
                    0 <= r < height && 0 <= c < width && r * width + c < row * width
                    ==> #[trigger] masked_node_ok(mask, nodes@, r, c),
            decreases height - row,
        {
            let mut col: usize = 0;
            proof {
                assert(row * width + 0 == row * width);
            }
            while col < width
                invariant
                    mask.wf(),
                    mask.width == width,
                    mask.height == height,
                    total == width * height,
                    cell_grid@.len() == total,
                    forall|j: int| 0 <= j < total ==> #[trigger] cell_grid@[j]
                        == (if mask.cells@[j] {
                            Some(NodeId(masked_count(mask, j) as usize))
                        } else {
                            None::<NodeId>
                        }),
                    row < height,
                    col <= width,
                    nodes@.len() == masked_count(mask, (row * width + col) as int),
                    forall|r: int, c: int|
                        0 <= r < height && 0 <= c < width && r * width + c < row * width + col
                        ==> #[trigger] masked_node_ok(mask, nodes@, r, c),
                decreases width - col,
            {
                proof {
                    assert(0 <= row * width + col < width * height) by (nonlinear_arith)
                        requires
                            0 <= row < height,
                            0 <= col < width,
                    {}
                    if row > 0 {
                        assert((row - 1) * width + col == row * width + col - width)
                            by (nonlinear_arith) {}
                        assert(row * width + col >= width) by (nonlinear_arith)
                            requires
                                row >= 1,
                                col >= 0,
                                width >= 0,
                        {}
                    }
                    if row + 1 < height {
                        assert((row + 1) * width + col == row * width + col + width)
                            by (nonlinear_arith) {}
                        assert((row + 1) * width + col < width * height) by (nonlinear_arith)
                            requires
                                0 <= col < width,
                                0 <= row,
                                row + 1 <= height - 1,
                        {}
                    }
                    if col + 1 < width {
                        assert(row * width + col + 1 < width * height) by (nonlinear_arith)
                            requires
                                0 <= row < height,
                                0 <= col,
                                col + 1 <= width - 1,
                        {}
                    }
                    lemma_masked_count_le(mask, (row * width + col) as int);
                }
                let idx = row * width + col;
                if mask.cells[idx] {
                    let id = match cell_grid[idx] {
                        Some(found) => found,
                        None => {
                            proof {
                                assert(false);
                            }
                            NodeId(0)
                        },
                    };
                    let north_id: Option<NodeId> = if row > 0 {
                        cell_grid[idx - width]
                    } else {
                        None
                    };
                    let south_id: Option<NodeId> = if row + 1 < height {
                        cell_grid[idx + width]
                    } else {
                        None
                    };
                    let west_id: Option<NodeId> = if col > 0 {
                        cell_grid[idx - 1]
                    } else {
                        None
                    };
                    let east_id: Option<NodeId> = if col + 1 < width {
                        cell_grid[idx + 1]
                    } else {
                        None
                    };
                    let mut adjacencies: Vec<NodeId> = Vec::new();
                    let ghost s0 = adjacencies@;
                    if let Some(nb) = north_id {
                        adjacencies.push(nb);
                    }
                    let ghost s1 = adjacencies@;
                    if let Some(nb) = south_id {
                        adjacencies.push(nb);
                    }
                    let ghost s2 = adjacencies@;
                    if let Some(nb) = west_id {
                        adjacencies.push(nb);
                    }
                    let ghost s3 = adjacencies@;
                    if let Some(nb) = east_id {
                        adjacencies.push(nb);
                    }
                    proof {
                        let rr = row as int;
                        let cc = col as int;
                        let ii = idx as int;
                        if row > 0 && mask.cells@[ii - width] {
                            lemma_masked_count_strict(mask, ii - width, ii);
                            lemma_masked_count_le(mask, ii - width);
                        }
                        if row + 1 < height && mask.cells@[ii + width] {
                            lemma_masked_count_le(mask, ii + width);
                        }
                        if col > 0 && mask.cells@[ii - 1] {
                            lemma_masked_count_le(mask, ii - 1);
                        }
                        if col + 1 < width && mask.cells@[ii + 1] {
                            lemma_masked_count_le(mask, ii + 1);
                        }
                        if row + 1 < height && mask.cells@[ii + width] {
                            lemma_masked_count_strict(mask, ii, ii + width);
                            if col > 0 && mask.cells@[ii - 1] {
                                lemma_masked_count_strict(mask, ii - 1, ii + width);
                            }
                            if col + 1 < width && mask.cells@[ii + 1] {
                                lemma_masked_count_strict(mask, ii + 1, ii + width);
                            }
                        }
                        if col > 0 && mask.cells@[ii - 1] {
                            lemma_masked_count_strict(mask, ii - 1, ii);
                            if row > 0 && mask.cells@[ii - width] {
                                if width == 1 {
                                    assert(false);
                                }
                                lemma_masked_count_strict(mask, ii - width, ii - 1);
                            }
                        }
                        if col + 1 < width && mask.cells@[ii + 1] {
                            lemma_masked_count_strict(mask, ii, ii + 1);
                            if row > 0 && mask.cells@[ii - width] {
                                lemma_masked_count_strict(mask, ii - width, ii + 1);
                            }
                            if col > 0 && mask.cells@[ii - 1] {
                                lemma_masked_count_strict(mask, ii - 1, ii + 1);
                            }
                        }
                        assert forall|y: NodeId| #[trigger] adjacencies@.contains(y)
                            implies (north_id == Some(y) || south_id == Some(y)
                                || west_id == Some(y) || east_id == Some(y)) by {
                            lemma_push_steps(s0, s1, north_id, y);
                            lemma_push_steps(s1, s2, south_id, y);
                            lemma_push_steps(s2, s3, west_id, y);
                            lemma_push_steps(s3, adjacencies@, east_id, y);
                        }
                        assert forall|y: NodeId|
                            north_id == Some(y) || south_id == Some(y)
                            || west_id == Some(y) || east_id == Some(y)
                            implies #[trigger] adjacencies@.contains(y) by {
                            lemma_push_steps(s0, s1, north_id, y);
                            lemma_push_steps(s1, s2, south_id, y);
                            lemma_push_steps(s2, s3, west_id, y);
                            lemma_push_steps(s3, adjacencies@, east_id, y);
                        }
                        assert(adjacencies@.no_duplicates()) by {
                            assert forall|a: int, b: int|
                                0 <= a < b < adjacencies@.len()
                                implies adjacencies@[a] != adjacencies@[b] by {
                                assert(adjacencies@.contains(adjacencies@[a]));
                                assert(adjacencies@.contains(adjacencies@[b]));
                                lemma_push_steps(s0, s1, north_id, adjacencies@[a]);
                                lemma_push_steps(s1, s2, south_id, adjacencies@[a]);
                                lemma_push_steps(s2, s3, west_id, adjacencies@[a]);
                                lemma_push_steps(s3, adjacencies@, east_id, adjacencies@[a]);
                                lemma_push_steps(s0, s1, north_id, adjacencies@[b]);
                                lemma_push_steps(s1, s2, south_id, adjacencies@[b]);
                                lemma_push_steps(s2, s3, west_id, adjacencies@[b]);
                                lemma_push_steps(s3, adjacencies@, east_id, adjacencies@[b]);
                            }
                        }
                    }
                    let ghost nodes0 = nodes@;
                    nodes.push(Node {
                        id,
                        links: Vec::new(),
                        adjacencies,
                        payload: (row, col),
                    });
                    proof {
                        assert forall|r: int, c: int|
                            0 <= r < height && 0 <= c < width
                            && r * width + c < row * width + col + 1
                            implies #[trigger] masked_node_ok(mask, nodes@, r, c) by {
                            if r * width + c < row * width + col {
                                assert(masked_node_ok(mask, nodes0, r, c));
                                if mask.has(r, c) {
                                    lemma_masked_count_strict(
                                        mask, r * width + c, (row * width + col) as int);
                                    lemma_masked_count_le(mask, r * width + c);
                                    assert(nodes@[masked_count(mask, r * mask.width + c)]
                                        == nodes0[masked_count(mask, r * mask.width + c)]);
                                }
                            } else {
                                assert(r == row && c == col) by (nonlinear_arith)
                                    requires
                                        0 <= r < height,
                                        0 <= c < width,
                                        0 <= row < height,
                                        0 <= col < width,
                                        r * width + c == row * width + col,
                                {}
                                assert(nodes@[masked_count(mask, (row * width + col) as int)]
                                    == nodes@[nodes@.len() - 1]);
                            }
                        }
                    }
                } else {
                    proof {
                        assert forall|r: int, c: int|
                            0 <= r < height && 0 <= c < width
                            && r * width + c < row * width + col + 1
                            implies #[trigger] masked_node_ok(mask, nodes@, r, c) by {
                            if r * width + c == row * width + col {
                                assert(r == row && c == col) by (nonlinear_arith)
                                    requires
                                        0 <= r < height,
                                        0 <= c < width,
                                        0 <= row < height,
                                        0 <= col < width,
                                        r * width + c == row * width + col,
                                {}
                                assert(!mask.has(r, c));
                            }
                        }
                    }
                }
                col += 1;
            }
            proof {
                assert(row * width + width == (row + 1) * width) by (nonlinear_arith) {}
            }
            row += 1;
        }
        let g = MaskedGrid { pool: Pool { nodes }, mask, width, height, cell_grid };
        proof {
            assert(height * width == width * height) by (nonlinear_arith) {}
            assert(g.pool.nodes@.len()
                == masked_count(g.mask, (width * height) as int));
            assert forall|r: int, c: int| 0 <= r < height && 0 <= c < width
                implies #[trigger] masked_node_ok(g.mask, g.pool.nodes@, r, c) by {
                assert(0 <= r * width + c < width * height) by (nonlinear_arith)
                    requires
                        0 <= r < height,
                        0 <= c < width,
                {}
            }
            // The pool is well-formed.
            assert forall|i: int| 0 <= i < g.pool.nodes@.len()
                implies g.pool.node_ok(i) by {
                lemma_masked_count_witness(g.mask, (width * height) as int, i);
                let t = choose|t: int|
                    0 <= t < width * height && g.mask.cells@[t]
                    && #[trigger] masked_count(g.mask, t) == i;
                lemma_coords_of_index(width as int, height as int, t);
                let rc = choose|r: int, c: int|
                    0 <= r < height && 0 <= c < width
                    && #[trigger] coords_match(width as int, r, c, t);
                let rr = rc.0;
                let cc = rc.1;
                assert(g.mask.has(rr, cc));
                assert(masked_node_ok(g.mask, g.pool.nodes@, rr, cc));
                let node = g.pool.nodes@[i];
                assert forall|q: int| 0 <= q < node.adjacencies@.len()
                    implies (#[trigger] node.adjacencies@[q]).0 < g.pool.nodes@.len() by {
                    assert(node.adjacencies@.contains(node.adjacencies@[q]));
                    let y = node.adjacencies@[q];
                    if g.mask.has(rr - 1, cc)
                        && y == NodeId(masked_count(g.mask, (rr - 1) * width + cc) as usize) {
                        assert((rr - 1) * width + cc == t - width) by (nonlinear_arith)
                            requires
                                rr * width + cc == t,
                        {}
                        lemma_masked_count_strict(
                            g.mask, t - width, (width * height) as int);
                        lemma_masked_count_le(g.mask, t - width);
                    } else if g.mask.has(rr + 1, cc)
                        && y == NodeId(masked_count(g.mask, (rr + 1) * width + cc) as usize) {
                        assert((rr + 1) * width + cc == t + width) by (nonlinear_arith)
                            requires
                                rr * width + cc == t,
                        {}
                        assert(t + width < width * height) by (nonlinear_arith)
                            requires
                                rr * width + cc == t,
                                0 <= cc < width,
                                0 <= rr,
                                rr + 1 <= height - 1,
                        {}
                        lemma_masked_count_strict(
                            g.mask, t + width, (width * height) as int);
                        lemma_masked_count_le(g.mask, t + width);
                    } else if g.mask.has(rr, cc - 1)
                        && y == NodeId(masked_count(g.mask, rr * width + cc - 1) as usize) {
                        lemma_masked_count_strict(
                            g.mask, t - 1, (width * height) as int);
                        lemma_masked_count_le(g.mask, t - 1);
                    } else {
                        assert(g.mask.has(rr, cc + 1)
                            && y == NodeId(masked_count(g.mask, rr * width + cc + 1) as usize));
                        assert(t + 1 < width * height) by (nonlinear_arith)
                            requires
                                rr * width + cc == t,
                                0 <= cc,
                                cc + 1 <= width - 1,
                                0 <= rr <= height - 1,
                        {}
                        lemma_masked_count_strict(
                            g.mask, t + 1, (width * height) as int);
                        lemma_masked_count_le(g.mask, t + 1);
                    }
                }
            }
            // The id table matches the ranks.
            assert forall|r: int, c: int| g.in_bounds(r, c)
                implies #[trigger] g.cell_grid@[r * g.width + c] == (if g.mask.has(r, c) {
                    Some(g.id_of(r, c))
                } else {
                    None::<NodeId>
                }) by {
                assert(0 <= r * width + c < width * height) by (nonlinear_arith)
                    requires
                        0 <= r < height,
                        0 <= c < width,
                {}
            }
            // Payloads name their own position.
            assert forall|r: int, c: int| #[trigger] g.mask.has(r, c)
                implies g.pool.nodes@[g.id_of(r, c).0 as int].payload
                    == (r as usize, c as usize) by {
                assert(masked_node_ok(g.mask, g.pool.nodes@, r, c));
                assert(0 <= r * width + c < width * height) by (nonlinear_arith)
                    requires
                        0 <= r < height,
                        0 <= c < width,
                {}
                lemma_masked_count_le(g.mask, r * width + c);
            }
            // Adjacency is exactly orthogonal neighborhood.
            assert forall|r1: int, c1: int, r2: int, c2: int|
                g.mask.has(r1, c1) && g.mask.has(r2, c2)
                implies (#[trigger] g.pool.adjacent(g.id_of(r1, c1), g.id_of(r2, c2))
                    == g.orthogonal(r1, c1, r2, c2)) by {
                g.lemma_assembled_adjacency(r1, c1, r2, c2);
            }
            assert(g.wf());
            assert forall|i: int| 0 <= i < g.pool.nodes@.len()
                implies (#[trigger] g.pool.nodes@[i]).links@.len() == 0 by {
                lemma_masked_count_witness(g.mask, (width * height) as int, i);
                let t = choose|t: int|
                    0 <= t < width * height && g.mask.cells@[t]
                    && #[trigger] masked_count(g.mask, t) == i;
                lemma_coords_of_index(width as int, height as int, t);
                let rc = choose|r: int, c: int|
                    0 <= r < height && 0 <= c < width
                    && #[trigger] coords_match(width as int, r, c, t);
                assert(g.mask.has(rc.0, rc.1));
                assert(masked_node_ok(g.mask, g.pool.nodes@, rc.0, rc.1));
            }
        }
        g
    }

    /// For an assembled grid whose nodes satisfy `masked_node_ok`,
    /// adjacency between two held positions is exactly orthogonality.
    proof fn lemma_assembled_adjacency(self, r1: int, c1: int, r2: int, c2: int)
        requires
            self.mask.wf(),
            self.width == self.mask.width,
            self.height == self.mask.height,
            self.pool.nodes@.len()
                == masked_count(self.mask, (self.width * self.height) as int),
            forall|r: int, c: int| 0 <= r < self.height && 0 <= c < self.width
                ==> #[trigger] masked_node_ok(self.mask, self.pool.nodes@, r, c),
            self.mask.has(r1, c1),
            self.mask.has(r2, c2),
        ensures
            self.pool.adjacent(self.id_of(r1, c1), self.id_of(r2, c2))
                == self.orthogonal(r1, c1, r2, c2),
    {
        let m = self.mask;
        let w = self.width as int;
        let h = self.height as int;
        let t1 = r1 * w + c1;
        let t2 = r2 * w + c2;
        assert(0 <= r1 * w + c1 < w * h) by (nonlinear_arith)
            requires
                0 <= r1 < h,
                0 <= c1 < w,
        {}
        assert(0 <= r2 * w + c2 < w * h) by (nonlinear_arith)
            requires
                0 <= r2 < h,
                0 <= c2 < w,
        {}
        lemma_masked_count_strict(m, t1, w * h);
        lemma_masked_count_strict(m, t2, w * h);
        lemma_masked_count_le(m, t1);
        lemma_masked_count_le(m, t2);
        assert(masked_node_ok(m, self.pool.nodes@, r1, c1));
        let node = self.pool.nodes@[masked_count(m, t1)];
        let y = self.id_of(r2, c2);
        if self.pool.adjacent(self.id_of(r1, c1), self.id_of(r2, c2)) {
            assert(node.adjacencies@.contains(y));
            if m.has(r1 - 1, c1)
                && y == NodeId(masked_count(m, (r1 - 1) * w + c1) as usize) {
                self.lemma_rank_match(r1 - 1, c1, r2, c2);
            } else if m.has(r1 + 1, c1)
                && y == NodeId(masked_count(m, (r1 + 1) * w + c1) as usize) {
                self.lemma_rank_match(r1 + 1, c1, r2, c2);
            } else if m.has(r1, c1 - 1)
                && y == NodeId(masked_count(m, r1 * w + c1 - 1) as usize) {
                self.lemma_rank_match(r1, c1 - 1, r2, c2);
            } else {
                assert(m.has(r1, c1 + 1)
                    && y == NodeId(masked_count(m, r1 * w + c1 + 1) as usize));
                self.lemma_rank_match(r1, c1 + 1, r2, c2);
            }
        }
        if self.orthogonal(r1, c1, r2, c2) {
            if r2 == r1 - 1 && c2 == c1 {
                assert((r1 - 1) * w + c1 == t2);
                assert(node.adjacencies@.contains(y));
            } else if r2 == r1 + 1 && c2 == c1 {
                assert((r1 + 1) * w + c1 == t2);
                assert(node.adjacencies@.contains(y));
            } else if r2 == r1 && c2 == c1 - 1 {
                assert(r1 * w + c1 - 1 == t2);
                assert(node.adjacencies@.contains(y));
            } else {
                assert(r2 == r1 && c2 == c1 + 1);
                assert(r1 * w + c1 + 1 == t2);
                assert(node.adjacencies@.contains(y));
            }
            assert(self.pool.adjacent(self.id_of(r1, c1), self.id_of(r2, c2)));
        }
    }

    /// Equal ranks of held positions force equal positions.
    proof fn lemma_rank_match(self, ra: int, ca: int, r2: int, c2: int)
        requires
            self.mask.wf(),
            self.width == self.mask.width,
            self.height == self.mask.height,
            self.mask.has(ra, ca),
            self.mask.has(r2, c2),
            NodeId(masked_count(self.mask, ra * self.width + ca) as usize)
                == self.id_of(r2, c2),
        ensures
            ra == r2 && ca == c2,
    {
        let m = self.mask;
        let w = self.width as int;
        let h = self.height as int;
        let ka = ra * w + ca;
        let k2 = r2 * w + c2;
        assert(0 <= ra * w + ca < w * h) by (nonlinear_arith)
            requires
                0 <= ra < h,
                0 <= ca < w,
        {}
        assert(0 <= r2 * w + c2 < w * h) by (nonlinear_arith)
            requires
                0 <= r2 < h,
                0 <= c2 < w,
        {}
        lemma_masked_count_le(m, ka);
        lemma_masked_count_le(m, k2);
        if ka < k2 {
            lemma_masked_count_strict(m, ka, k2);
            assert(false);
        } else if k2 < ka {
            lemma_masked_count_strict(m, k2, ka);
            assert(false);
        }
        assert(ra == r2 && ca == c2) by (nonlinear_arith)
            requires
                0 <= ra < h,
                0 <= r2 < h,
                0 <= ca < w,
                0 <= c2 < w,
                ra * w + ca == r2 * w + c2,
        {}
    }
}

/// Why a maze byte stream was rejected.
#[derive(Debug, PartialEq, Eq)]
pub enum GridReadError {
    /// The stream ended before the declared grid was complete.
    NotEnoughBytes,
    /// The stream continued past the declared grid.
    TooManyBytes,
    /// The declared links do not form a consistent grid.
    InvalidNewsGrid(NewsGridError),
    /// The declared cells do not form a single connected region.
    DisjointCells,
}

/// A structural fault among the declared per-cell link bits.
#[derive(Debug, PartialEq, Eq)]
pub enum NewsGridError {
    /// A cell declares a link that its neighbor does not reciprocate.
    UnrequitedConnection {
        linked: (usize, usize),
        unlinked: (usize, usize),
        direction: Direction,
    },
    /// A cell declares a link off the edge of the grid.
    ConnectedOutOfBounds { cell: (usize, usize), direction: Direction },
    /// A cell declares a link into a position absent from the mask.
    ConnectedOutOfMask {
        linked: (usize, usize),
        missing: (usize, usize),
        direction: Direction,
    },
}

/// The four direction bits of the maze byte format.
pub open spec fn north_of_spec(b: u8) -> bool {
    b & 0x08 == 0x08
}

pub open spec fn east_of_spec(b: u8) -> bool {
    b & 0x04 == 0x04
}

pub open spec fn west_of_spec(b: u8) -> bool {
    b & 0x02 == 0x02
}

pub open spec fn south_of_spec(b: u8) -> bool {
    b & 0x01 == 0x01
}

/// Composing four disjoint direction bits and reading them back gives the
/// bits that went in; the byte is zero exactly when no bit went in.
pub proof fn lemma_byte_bits(b: u8, n: u8, e: u8, w: u8, s: u8)
    requires
        n == 8 || n == 0,
        e == 4 || e == 0,
        w == 2 || w == 0,
        s == 1 || s == 0,
        b == n + e + w + s,
    ensures
        north_of_spec(b) == (n == 8),
        east_of_spec(b) == (e == 4),
        west_of_spec(b) == (w == 2),
        south_of_spec(b) == (s == 1),
        (b == 0) == (n == 0 && e == 0 && w == 0 && s == 0),
{
    assert((b & 0x08 == 0x08) == (n == 8) && (b & 0x04 == 0x04) == (e == 4)
        && (b & 0x02 == 0x02) == (w == 2) && (b & 0x01 == 0x01) == (s == 1)
        && (b == 0) == (n == 0 && e == 0 && w == 0 && s == 0)) by (bit_vector)
        requires
            n == 8 || n == 0,
            e == 4 || e == 0,
            w == 2 || w == 0,
            s == 1 || s == 0,
            b == n + e + w + s,
    {}
}

impl MaskedGrid {
    /// The total number of cells the mask admitted.
    pub fn total_cells(&self) -> (r: usize)
        ensures
            r == self.pool.nodes@.len(),
    {
        self.pool.nodes.len()
    }

    /// Looks up the id of the cell at a position, if the mask holds one.
    pub fn get_id_at(&self, row: usize, col: usize) -> (r: Option<NodeId>)
        requires
            self.wf(),
        ensures
            r == (if self.mask.has(row as int, col as int) {
                Some(self.id_of(row as int, col as int))
            } else {
                None::<NodeId>
            }),
    {
        if row < self.height && col < self.width {
            proof {
                assert(0 <= row * self.width + col < self.width * self.height)
                    by (nonlinear_arith)
                    requires
                        0 <= (row as int) < self.height,
                        0 <= (col as int) < self.width,
                {}
            }
            self.cell_grid[row * self.width + col]
        } else {
            None
        }
    }

    /// Checks whether two cells are connected by a passage.
    pub fn is_linked(&self, here: NodeId, there: NodeId) -> (r: bool)
        requires
            self.wf(),
            self.pool.valid(here),
        ensures
            r == self.pool.linked(here, there),
    {
        self.pool.is_linked(here, there)
    }

    /// Checks whether the cells at two positions are both held by the mask
    /// and connected by a passage.
    pub fn is_linked_at(
        &self,
        row_here: usize,
        col_here: usize,
        row_there: usize,
        col_there: usize,
    ) -> (r: bool)
        requires
            self.wf(),
        ensures
            r == self.linked_at_spec(
                row_here as int,
                col_here as int,
                row_there as int,
                col_there as int,
            ),
    {
        let here = self.get_id_at(row_here, col_here);
        let there = self.get_id_at(row_there, col_there);
        match (here, there) {
            (Some(here_id), Some(there_id)) => {
                proof {
                    self.lemma_id_of_valid(row_here as int, col_here as int);
                }
                self.is_linked(here_id, there_id)
            },
            _ => false,
        }
    }

    /// A horizontal wall runs along the top edge of position `(row, col)`:
    /// there is a cell above or below the edge but no passage across it.
    pub fn is_h_wall(&self, row: usize, col: usize) -> (r: bool)
        requires
            self.wf(),
        ensures
            r == ({
                let rr = row as int;
                let cc = col as int;
                if cc >= self.width {
                    false
                } else if rr == 0 {
                    self.mask.has(0, cc)
                } else if rr >= self.height {
                    rr == self.height && self.mask.has(rr - 1, cc)
                } else if self.mask.has(rr - 1, cc) || self.mask.has(rr, cc) {
                    !self.linked_at_spec(rr, cc, rr - 1, cc)
                } else {
                    false
                }
            }),
    {
        if col >= self.width {
            return false;
        }
        if row == 0 {
            return self.mask.contains(row, col);
        }
        if row >= self.height {
            return row == self.height && self.mask.contains(row - 1, col);
        }
        let present_above = self.mask.contains(row - 1, col);
        let present_center = self.mask.contains(row, col);
        if present_above && present_center {
            !self.is_linked_at(row, col, row - 1, col)
        } else {
            present_above || present_center
        }
    }

    /// A vertical wall runs along the left edge of position `(row, col)`:
    /// there is a cell beside the edge but no passage across it.
    pub fn is_v_wall(&self, row: usize, col: usize) -> (r: bool)
        requires
            self.wf(),
        ensures
            r == ({
                let rr = row as int;
                let cc = col as int;
                if rr >= self.height {
                    false
                } else if cc == 0 {
                    self.mask.has(rr, 0)
                } else if cc >= self.width {
                    cc == self.width && self.mask.has(rr, cc - 1)
                } else if self.mask.has(rr, cc - 1) || self.mask.has(rr, cc) {
                    !self.linked_at_spec(rr, cc, rr, cc - 1)
                } else {
                    false
                }
            }),
    {
        if row >= self.height {
            return false;
        }
        if col == 0 {
            return self.mask.contains(row, col);
        }
        if col >= self.width {
            return col == self.width && self.mask.contains(row, col - 1);
        }
        let present_left = self.mask.contains(row, col - 1);
        let present_center = self.mask.contains(row, col);
        if present_left && present_center {
            !self.is_linked_at(row, col, row, col - 1)
        } else {
            present_left || present_center
        }
    }

    /// Finds a cell outside the `visited` set adjacent (across a wall) to a
    /// cell inside it.
    pub fn scan_frontier(&self, visited: &Vec<bool>) -> (r: Option<(NodeId, NodeId)>)
        requires
            self.wf(),
            visited@.len() == self.pool.nodes@.len(),
        ensures
            match r {
                Some(pair) => {
                    &&& self.pool.valid(pair.0)
                    &&& self.pool.valid(pair.1)
                    &&& !visited@[pair.0.0 as int]
                    &&& visited@[pair.1.0 as int]
                    &&& self.pool.adjacent(pair.0, pair.1)
                    &&& !self.pool.linked(pair.0, pair.1)
                },
                None => forall|u: NodeId, w: NodeId|
                    self.pool.valid(u) && !visited@[u.0 as int]
                    && #[trigger] self.pool.adjacent(u, w) && !self.pool.linked(u, w)
                    ==> !visited@[w.0 as int],
            },
    {
        match self.pool.scan_frontier(visited) {
            FrontierSearchResult::Found { unvisited, visited: visited_root } =>
                Some((unvisited, visited_root)),
            FrontierSearchResult::NoFrontier => None,
        }
    }

    /// The geometric facts the generation algorithms lean on.
    pub proof fn lemma_adjacency_shape(self)
        requires
            self.wf(),
        ensures
            self.pool.adj_symmetric(),
            self.pool.adj_irreflexive(),
    {
        assert forall|a: NodeId, b: NodeId| #[trigger] self.pool.adjacent(a, b)
            implies self.pool.adjacent(b, a) by {
            self.lemma_node_position(a.0 as int);
            let pa = self.pool.nodes@[a.0 as int].payload;
            assert(self.pool.node_ok(a.0 as int));
            let q = choose|q: int|
                0 <= q < self.pool.nodes@[a.0 as int].adjacencies@.len()
                && (#[trigger] self.pool.nodes@[a.0 as int].adjacencies@[q]) == b;
            assert(self.pool.valid(b));
            self.lemma_node_position(b.0 as int);
            let pb = self.pool.nodes@[b.0 as int].payload;
            assert(self.pool.adjacent(
                self.id_of(pa.0 as int, pa.1 as int),
                self.id_of(pb.0 as int, pb.1 as int),
            ) == self.orthogonal(pa.0 as int, pa.1 as int, pb.0 as int, pb.1 as int));
            assert(self.orthogonal(pb.0 as int, pb.1 as int, pa.0 as int, pa.1 as int));
        }
        assert forall|a: NodeId| !(#[trigger] self.pool.adjacent(a, a)) by {
            if self.pool.adjacent(a, a) {
                self.lemma_node_position(a.0 as int);
                let pa = self.pool.nodes@[a.0 as int].payload;
                assert(self.pool.adjacent(
                    self.id_of(pa.0 as int, pa.1 as int),
                    self.id_of(pa.0 as int, pa.1 as int),
                ) == self.orthogonal(pa.0 as int, pa.1 as int, pa.0 as int, pa.1 as int));
            }
        }
    }

    /// Growing only the link relation preserves the whole grid shape.
    pub proof fn lemma_wf_after_links(pre: MaskedGrid, post: MaskedGrid)
        requires
            pre.wf(),
            post.mask == pre.mask,
            post.width == pre.width,
            post.height == pre.height,
            post.cell_grid == pre.cell_grid,
            post.pool.wf(),
            pre.pool.links_extended(post.pool),
        ensures
            post.wf(),
    {
        assert forall|r1: int, c1: int, r2: int, c2: int|
            post.mask.has(r1, c1) && post.mask.has(r2, c2)
            implies (#[trigger] post.pool.adjacent(post.id_of(r1, c1), post.id_of(r2, c2))
                == post.orthogonal(r1, c1, r2, c2)) by {
            pre.lemma_id_of_valid(r1, c1);
            pre.lemma_id_of_valid(r2, c2);
            assert(pre.pool.adjacent(pre.id_of(r1, c1), pre.id_of(r2, c2))
                == pre.orthogonal(r1, c1, r2, c2));
        }
        assert forall|r: int, c: int| #[trigger] post.mask.has(r, c)
            implies post.pool.nodes@[post.id_of(r, c).0 as int].payload
                == (r as usize, c as usize) by {
            pre.lemma_id_of_valid(r, c);
        }
    }

    /// Aldous-Broder over this grid's pool. The grid must be freshly built
    /// and its cells a single connected region.
    pub fn aldous_broder(&mut self, rng: &mut rand::rngs::ThreadRng) -> (complete: bool)
        requires
            old(self).wf(),
            old(self).untouched(),
            old(self).pool.nodes@.len() > 0,
            old(self).pool.adj_connected(),
        ensures
            final(self).wf(),
            old(self).pool.links_extended(final(self).pool),
            final(self).mask == old(self).mask,
            final(self).width == old(self).width,
            final(self).height == old(self).height,
            complete ==> final(self).pool.link_connected(),
            old(self).pool.nodes@.len() == 1 ==> complete,
            complete ==> links_total(
                final(self).pool.nodes@,
                old(self).pool.nodes@.len() as int,
            ) == 2 * (old(self).pool.nodes@.len() - 1),
    {
        let ghost pre = *self;
        proof {
            self.lemma_adjacency_shape();
            if self.pool.nodes@.len() >= 2 {
                self.pool.lemma_connected_no_dead_ends();
            }
        }
        let complete = self.pool.aldous_broder(rng);
        proof {
            MaskedGrid::lemma_wf_after_links(pre, *self);
        }
        complete
    }

    /// Hunt-and-Kill over this grid's pool.
    pub fn hunt_and_kill(&mut self, rng: &mut rand::rngs::ThreadRng)
        requires
            old(self).wf(),
        ensures
            final(self).wf(),
            old(self).pool.links_extended(final(self).pool),
            final(self).mask == old(self).mask,
            final(self).width == old(self).width,
            final(self).height == old(self).height,
            old(self).untouched() && old(self).pool.adj_connected()
                ==> final(self).pool.link_connected(),
            old(self).untouched() && old(self).pool.adj_connected()
                && old(self).pool.nodes@.len() > 0
                ==> links_total(final(self).pool.nodes@, old(self).pool.nodes@.len() as int)
                    == 2 * (old(self).pool.nodes@.len() - 1),
    {
        let ghost pre = *self;
        proof {
            self.lemma_adjacency_shape();
        }
        self.pool.hunt_and_kill(rng);
        proof {
            MaskedGrid::lemma_wf_after_links(pre, *self);
        }
    }
}

/// The big-endian bytes of a 32-bit value.
pub open spec fn be0(x: u32) -> u8 {
    (x >> 24) as u8
}

pub open spec fn be1(x: u32) -> u8 {
    (x >> 16) as u8
}

pub open spec fn be2(x: u32) -> u8 {
    (x >> 8) as u8
}

pub open spec fn be3(x: u32) -> u8 {
    x as u8
}

/// Appends the big-endian encoding of a 32-bit value.
fn push_u32_be(out: &mut Vec<u8>, x: u32)
    ensures
        final(out)@ == old(out)@ + seq![be0(x), be1(x), be2(x), be3(x)],
{
    let ghost o0 = out@;
    out.push((x >> 24) as u8);
    out.push((x >> 16) as u8);
    out.push((x >> 8) as u8);
    out.push(x as u8);
    proof {
        assert(final(out)@ =~= o0 + seq![be0(x), be1(x), be2(x), be3(x)]);
    }
}

impl MaskedGrid {
    /// The cell at `(r, c)` is linked to the cell above it.
    pub open spec fn north_linked(self, r: int, c: int) -> bool {
        r > 0 && self.linked_at_spec(r, c, r - 1, c)
    }

    /// The cell at `(r, c)` is linked to the cell right of it.
    pub open spec fn east_linked(self, r: int, c: int) -> bool {
        c < self.width - 1 && self.linked_at_spec(r, c, r, c + 1)
    }

    /// The cell at `(r, c)` is linked to the cell left of it.
    pub open spec fn west_linked(self, r: int, c: int) -> bool {
        c > 0 && self.linked_at_spec(r, c, r, c - 1)
    }

    /// The cell at `(r, c)` is linked to the cell below it.
    pub open spec fn south_linked(self, r: int, c: int) -> bool {
        r < self.height - 1 && self.linked_at_spec(r, c, r + 1, c)
    }

    /// The format byte of the cell at `(r, c)`: one bit per linked
    /// direction, zero for a position the mask does not hold.
    pub open spec fn byte_at(self, r: int, c: int) -> u8 {
        if self.mask.has(r, c) {
            (((if self.north_linked(r, c) { 8int } else { 0int })
                + (if self.east_linked(r, c) { 4int } else { 0int })
                + (if self.west_linked(r, c) { 2int } else { 0int })
                + (if self.south_linked(r, c) { 1int } else { 0int })) as u8)
        } else {
            0u8
        }
    }

    /// Tests the north bit of a format byte.
    pub fn north(b: u8) -> (r: bool)
        ensures
            r == north_of_spec(b),
    {
        b & 0x08 == 0x08
    }

    /// Tests the east bit of a format byte.
    pub fn east(b: u8) -> (r: bool)
        ensures
            r == east_of_spec(b),
    {
        b & 0x04 == 0x04
    }

    /// Tests the west bit of a format byte.
    pub fn west(b: u8) -> (r: bool)
        ensures
            r == west_of_spec(b),
    {
        b & 0x02 == 0x02
    }

    /// Tests the south bit of a format byte.
    pub fn south(b: u8) -> (r: bool)
        ensures
            r == south_of_spec(b),
    {
        b & 0x01 == 0x01
    }

    /// Encodes one cell of the grid as its format byte.
    pub fn cell_to_byte(&self, row: usize, col: usize) -> (r: u8)
        requires
            self.wf(),
        ensures
            r == self.byte_at(row as int, col as int),
    {
        let present = match self.get_id_at(row, col) {
            Some(_) => true,
            None => false,
        };
        if present {
            let north_part: u8 = if row > 0 && self.is_linked_at(row, col, row - 1, col) {
                8
            } else {
                0
            };
            let west_part: u8 = if col > 0 && self.is_linked_at(row, col, row, col - 1) {
                2
            } else {
                0
            };
            let east_part: u8 = if col + 1 < self.width
                && self.is_linked_at(row, col, row, col + 1) {
                4
            } else {
                0
            };
            let south_part: u8 = if row + 1 < self.height
                && self.is_linked_at(row, col, row + 1, col) {
                1
            } else {
                0
            };
            north_part + east_part + west_part + south_part
        } else {
            0
        }
    }

    /// Serializes the grid: width and height, the positions of a furthest
    /// pair of cells, then one format byte per grid position in row-major
    /// order. Appends to `out`.
    pub fn write_maze(&self, out: &mut Vec<u8>)
        requires
            self.wf(),
            self.pool.nodes@.len() > 0,
        ensures
            final(out)@.len() == old(out)@.len() + 24 + self.width * self.height,
            final(out)@.subrange(0, old(out)@.len() as int) == old(out)@,
            final(out)@[old(out)@.len() as int] == be0(self.width as u32),
            final(out)@[old(out)@.len() as int + 1] == be1(self.width as u32),
            final(out)@[old(out)@.len() as int + 2] == be2(self.width as u32),
            final(out)@[old(out)@.len() as int + 3] == be3(self.width as u32),
            final(out)@[old(out)@.len() as int + 4] == be0(self.height as u32),
            final(out)@[old(out)@.len() as int + 5] == be1(self.height as u32),
            final(out)@[old(out)@.len() as int + 6] == be2(self.height as u32),
            final(out)@[old(out)@.len() as int + 7] == be3(self.height as u32),
            // Bytes 8..24 hold the positions of a furthest pair of cells,
            // start then end, each as row and column.
            exists|pair: (NodeId, NodeId)| {
                let start_pos = self.pool.nodes@[pair.0.0 as int].payload;
                let end_pos = self.pool.nodes@[pair.1.0 as int].payload;
                &&& #[trigger] self.pool.is_furthest_pair(pair)
                &&& final(out)@.subrange(
                        old(out)@.len() as int + 8, old(out)@.len() as int + 24)
                    == seq![
                        be0(start_pos.0 as u32), be1(start_pos.0 as u32),
                        be2(start_pos.0 as u32), be3(start_pos.0 as u32),
                        be0(start_pos.1 as u32), be1(start_pos.1 as u32),
                        be2(start_pos.1 as u32), be3(start_pos.1 as u32),
                        be0(end_pos.0 as u32), be1(end_pos.0 as u32),
                        be2(end_pos.0 as u32), be3(end_pos.0 as u32),
                        be0(end_pos.1 as u32), be1(end_pos.1 as u32),
                        be2(end_pos.1 as u32), be3(end_pos.1 as u32),
                    ]
            },
            forall|r: int, c: int| self.in_bounds(r, c)
                ==> final(out)@[old(out)@.len() as int + 24 + r * self.width + c]
                    == self.byte_at(r, c),
    {
        let furthest = match self.pool.furthest_pair() {
            Some(pair) => pair,
            None => {
                proof {
                    assert(false);
                }
                (NodeId(0), NodeId(0))
            },
        };
        let start = self.pool.get(furthest.0).payload;
        let end = self.pool.get(furthest.1).payload;

        #[verifier::truncate]
        let width32 = self.width as u32;
        #[verifier::truncate]
        let height32 = self.height as u32;
        #[verifier::truncate]
        let start0 = start.0 as u32;
        #[verifier::truncate]
        let start1 = start.1 as u32;
        #[verifier::truncate]
        let end0 = end.0 as u32;
        #[verifier::truncate]
        let end1 = end.1 as u32;
        push_u32_be(out, width32);
        let ghost g1 = out@;
        push_u32_be(out, height32);
        let ghost g2 = out@;
        push_u32_be(out, start0);
        let ghost g3 = out@;
        push_u32_be(out, start1);
        let ghost g4 = out@;
        push_u32_be(out, end0);
        let ghost g5 = out@;
        push_u32_be(out, end1);
        let ghost with_header = out@;
        proof {
            let base = old(out)@.len() as int;
            assert(g1[base] == be0(width32) && g1[base + 1] == be1(width32)
                && g1[base + 2] == be2(width32) && g1[base + 3] == be3(width32));
            assert(g2[base + 4] == be0(height32) && g2[base + 5] == be1(height32)
                && g2[base + 6] == be2(height32) && g2[base + 7] == be3(height32));
            assert(g3[base + 8] == be0(start0) && g3[base + 9] == be1(start0)
                && g3[base + 10] == be2(start0) && g3[base + 11] == be3(start0));
            assert(g4[base + 12] == be0(start1) && g4[base + 13] == be1(start1)
                && g4[base + 14] == be2(start1) && g4[base + 15] == be3(start1));
            assert(g5[base + 16] == be0(end0) && g5[base + 17] == be1(end0)
                && g5[base + 18] == be2(end0) && g5[base + 19] == be3(end0));
            assert(with_header[base + 20] == be0(end1)
                && with_header[base + 21] == be1(end1)
                && with_header[base + 22] == be2(end1)
                && with_header[base + 23] == be3(end1));
            assert(with_header.len() == base + 24);
            assert forall|k: int| 0 <= k < 20
                implies (#[trigger] with_header[base + k]) == g5[base + k] by {}
            assert forall|k: int| 0 <= k < 16
                implies (#[trigger] g5[base + k]) == g4[base + k] by {}
            assert forall|k: int| 0 <= k < 12
                implies (#[trigger] g4[base + k]) == g3[base + k] by {}
            assert forall|k: int| 0 <= k < 8
                implies (#[trigger] g3[base + k]) == g2[base + k] by {}
            assert(with_header[base] == be0(width32));
            assert(with_header[base + 1] == be1(width32));
            assert(with_header[base + 2] == be2(width32));
            assert(with_header[base + 3] == be3(width32));
            assert(with_header[base + 4] == be0(height32));
            assert(with_header[base + 5] == be1(height32));
            assert(with_header[base + 6] == be2(height32));
            assert(with_header[base + 7] == be3(height32));
            assert(with_header.subrange(base + 8, base + 24) =~= seq![
                be0(start0), be1(start0), be2(start0), be3(start0),
                be0(start1), be1(start1), be2(start1), be3(start1),
                be0(end0), be1(end0), be2(end0), be3(end0),
                be0(end1), be1(end1), be2(end1), be3(end1),
            ]);
        }

        let mut row: usize = 0;
        while row < self.height
            invariant
                self.wf(),
                row <= self.height,
                out@.len() == with_header.len() + row * self.width,
                with_header.len() >= 24,
                out@.subrange(0, with_header.len() as int) == with_header,
                forall|r: int, c: int|
                    self.in_bounds(r, c) && r < row
                    ==> out@[with_header.len() as int + r * self.width + c]
                        == self.byte_at(r, c),
            decreases self.height - row,
        {
            let mut col: usize = 0;
            proof {
                assert(row * self.width + 0 == row * self.width);
            }
            while col < self.width
                invariant
                    self.wf(),
                    row < self.height,
                    col <= self.width,
                    out@.len() == with_header.len() + row * self.width + col,
                    with_header.len() >= 24,
                    out@.subrange(0, with_header.len() as int) == with_header,
                    forall|r: int, c: int|
                        self.in_bounds(r, c) && (r < row || (r == row && c < col))
                        ==> out@[with_header.len() as int + r * self.width + c]
                            == self.byte_at(r, c),
                decreases self.width - col,
            {
                let b = self.cell_to_byte(row, col);
                let ghost out0 = out@;
                out.push(b);
                proof {
                    assert(out@.subrange(0, with_header.len() as int)
                        =~= out0.subrange(0, with_header.len() as int));
                    assert forall|r: int, c: int|
                        self.in_bounds(r, c) && (r < row || (r == row && c < col + 1))
                        implies out@[with_header.len() as int + r * self.width + c]
                            == self.byte_at(r, c) by {
                        if r < row || (r == row && c < col) {
                            assert(r * self.width + c < row * self.width + col)
                                by (nonlinear_arith)
                                requires
                                    0 <= c < self.width,
                                    0 <= r,
                                    (r < row && c < self.width)
                                        || (r == row && c < col),
                            {}
                            assert(out@[with_header.len() as int + r * self.width + c]
                                == out0[with_header.len() as int + r * self.width + c]);
                        } else {
                            assert(r == row && c == col);
                            assert(out@[out@.len() - 1] == b);
                        }
                    }
                }
                col += 1;
            }
            proof {
                assert(row * self.width + self.width == (row + 1) * self.width)
                    by (nonlinear_arith) {}
            }
            row += 1;
        }
        proof {
            assert(out@.len() == with_header.len() + self.height * self.width);
            assert(self.height * self.width == self.width * self.height)
                by (nonlinear_arith) {}
            assert(out@.subrange(0, old(out)@.len() as int)
                =~= with_header.subrange(0, old(out)@.len() as int));
            assert(with_header.subrange(0, old(out)@.len() as int) =~= old(out)@);
            let base = old(out)@.len() as int;
            assert(out@.subrange(base + 8, base + 24)
                =~= with_header.subrange(base + 8, base + 24));
            assert(self.pool.is_furthest_pair(furthest));
        }
    }
}

/// Position `(r, c)` is declared present by the byte table: it lies on the
/// rectangle and its byte is nonzero.
pub open spec fn news_present(width: int, height: int, cells: Seq<u8>, r: int, c: int) -> bool {
    0 <= r < height && 0 <= c < width && cells[r * width + c] != 0
}

/// The declared links of position `(r, c)` are consistent: each set bit
/// stays on the rectangle, points at a present cell, and is reciprocated.
pub open spec fn news_ok_at(width: int, height: int, cells: Seq<u8>, r: int, c: int) -> bool {
    news_present(width, height, cells, r, c) ==> {
        let b = cells[r * width + c];
        &&& (north_of_spec(b) ==> r > 0 && news_present(width, height, cells, r - 1, c)
            && south_of_spec(cells[(r - 1) * width + c]))
        &&& (east_of_spec(b) ==> news_present(width, height, cells, r, c + 1)
            && west_of_spec(cells[r * width + c + 1]))
        &&& (west_of_spec(b) ==> c > 0 && news_present(width, height, cells, r, c - 1)
            && east_of_spec(cells[r * width + c - 1]))
        &&& (south_of_spec(b) ==> news_present(width, height, cells, r + 1, c)
            && north_of_spec(cells[(r + 1) * width + c]))
    }
}

/// The whole byte table is consistent.
pub open spec fn news_ok(width: int, height: int, cells: Seq<u8>) -> bool {
    forall|r: int, c: int| 0 <= r < height && 0 <= c < width
        ==> #[trigger] news_ok_at(width, height, cells, r, c)
}

impl MaskedGrid {
    /// Validates a row-major table of format bytes: every declared link
    /// must stay on the grid, point at a present cell, and be reciprocated
    /// by its neighbor. A zero byte means the position holds no cell.
    pub fn validate_news_grid(
        width: usize,
        height: usize,
        news_grid: &Vec<u8>,
    ) -> (r: Result<(), NewsGridError>)
        requires
            news_grid@.len() == width * height,
        ensures
            r is Ok <==> news_ok(width as int, height as int, news_grid@),
            match r {
                Ok(()) => true,
                Err(e) => {
                    let cells = news_grid@;
                    let w = width as int;
                    let h = height as int;
                    match e {
                        NewsGridError::UnrequitedConnection { linked, unlinked, direction } => {
                            let lr = linked.0 as int;
                            let lc = linked.1 as int;
                            &&& news_present(w, h, cells, lr, lc)
                            &&& news_present(w, h, cells, unlinked.0 as int, unlinked.1 as int)
                            &&& match direction {
                                Direction::North => unlinked == ((linked.0 - 1) as usize, linked.1)
                                    && lr > 0
                                    && north_of_spec(cells[lr * w + lc])
                                    && !south_of_spec(cells[(lr - 1) * w + lc]),
                                Direction::East => unlinked == (linked.0, (linked.1 + 1) as usize)
                                    && east_of_spec(cells[lr * w + lc])
                                    && !west_of_spec(cells[lr * w + lc + 1]),
                                Direction::West => unlinked == (linked.0, (linked.1 - 1) as usize)
                                    && lc > 0
                                    && west_of_spec(cells[lr * w + lc])
                                    && !east_of_spec(cells[lr * w + lc - 1]),
                                Direction::South => unlinked == ((linked.0 + 1) as usize, linked.1)
                                    && south_of_spec(cells[lr * w + lc])
                                    && !north_of_spec(cells[(lr + 1) * w + lc]),
                            }
                        },
                        NewsGridError::ConnectedOutOfBounds { cell, direction } => {
                            let lr = cell.0 as int;
                            let lc = cell.1 as int;
                            &&& news_present(w, h, cells, lr, lc)
                            &&& match direction {
                                Direction::North => lr == 0
                                    && north_of_spec(cells[lr * w + lc]),
                                Direction::West => lc == 0
                                    && west_of_spec(cells[lr * w + lc]),
                                _ => false,
                            }
                        },
                        NewsGridError::ConnectedOutOfMask { linked, missing, direction } => {
                            let lr = linked.0 as int;
                            let lc = linked.1 as int;
                            &&& news_present(w, h, cells, lr, lc)
                            &&& match direction {
                                Direction::North => missing == ((linked.0 - 1) as usize, linked.1)
                                    && north_of_spec(cells[lr * w + lc])
                                    && lr > 0
                                    && !news_present(w, h, cells, lr - 1, lc),
                                Direction::East => missing == (linked.0, (linked.1 + 1) as usize)
                                    && east_of_spec(cells[lr * w + lc])
                                    && !news_present(w, h, cells, lr, lc + 1),
                                Direction::West => missing == (linked.0, (linked.1 - 1) as usize)
                                    && west_of_spec(cells[lr * w + lc])
                                    && lc > 0
                                    && !news_present(w, h, cells, lr, lc - 1),
                                Direction::South => missing == ((linked.0 + 1) as usize, linked.1)
                                    && south_of_spec(cells[lr * w + lc])
                                    && !news_present(w, h, cells, lr + 1, lc),
                            }
                        },
                    }
                },
            },
    {
        let ghost w = width as int;
        let ghost h = height as int;
        let ghost cells = news_grid@;
        let mut row: usize = 0;
        while row < height
            invariant
                news_grid@.len() == width * height,
                w == width as int,
                h == height as int,
                cells == news_grid@,
                row <= height,
                forall|r: int, c: int| 0 <= r < row && 0 <= c < width
                    ==> #[trigger] news_ok_at(w, h, cells, r, c),
            decreases height - row,
        {
            let mut col: usize = 0;
            while col < width
                invariant
                    news_grid@.len() == width * height,
                    w == width as int,
                    h == height as int,
                    cells == news_grid@,
                    row < height,
                    col <= width,
                    forall|r: int, c: int| 0 <= r < row && 0 <= c < width
                        ==> #[trigger] news_ok_at(w, h, cells, r, c),
                    forall|c: int| 0 <= c < col
                        ==> #[trigger] news_ok_at(w, h, cells, row as int, c),
                decreases width - col,
            {
                proof {
                    vstd::std_specs::vec::axiom_spec_len(news_grid);
                    assert(0 <= row * width + col < width * height) by (nonlinear_arith)
                        requires
                            0 <= (row as int) < height,
                            0 <= (col as int) < width,
                    {}
                    if row > 0 {
                        assert((row - 1) * width + col == row * width + col - width
                            && row * width + col >= width) by (nonlinear_arith)
                            requires
                                row >= 1,
                                0 <= (col as int) < width,
                        {}
                    }
                    if row + 1 < height {
                        assert((row + 1) * width + col == row * width + col + width
                            && (row + 1) * width + col < width * height) by (nonlinear_arith)
                            requires
                                0 <= (col as int) < width,
                                0 <= (row as int),
                                row + 1 <= height - 1,
                        {}
                    }
                    if col + 1 < width {
                        assert(row * width + col + 1 < width * height) by (nonlinear_arith)
                            requires
                                0 <= (row as int) < height,
                                0 <= (col as int),
                                col + 1 <= width - 1,
                        {}
                    }
                }
                let idx = row * width + col;
                let b = news_grid[idx];
                if b != 0 {
                    // North checks.
                    if Self::north(b) {
                        if row == 0 {
                            proof {
                                assert(!news_ok_at(w, h, cells, row as int, col as int));
                            }
                            return Err(NewsGridError::ConnectedOutOfBounds {
                                cell: (row, col),
                                direction: Direction::North,
                            });
                        }
                        let north_cell = news_grid[idx - width];
                        if north_cell == 0 {
                            proof {
                                assert(!news_ok_at(w, h, cells, row as int, col as int));
                            }
                            return Err(NewsGridError::ConnectedOutOfMask {
                                linked: (row, col),
                                missing: (row - 1, col),
                                direction: Direction::North,
                            });
                        }
                        if !Self::south(north_cell) {
                            proof {
                                assert(!news_ok_at(w, h, cells, row as int, col as int));
                            }
                            return Err(NewsGridError::UnrequitedConnection {
                                linked: (row, col),
                                unlinked: (row - 1, col),
                                direction: Direction::North,
                            });
                        }
                    }
                    // East checks.
                    if Self::east(b) {
                        if col + 1 >= width {
                            proof {
                                assert(!news_ok_at(w, h, cells, row as int, col as int));
                            }
                            return Err(NewsGridError::ConnectedOutOfMask {
                                linked: (row, col),
                                missing: (row, col + 1),
                                direction: Direction::East,
                            });
                        }
                        let east_cell = news_grid[idx + 1];
                        if east_cell == 0 {
                            proof {
                                assert(!news_ok_at(w, h, cells, row as int, col as int));
                            }
                            return Err(NewsGridError::ConnectedOutOfMask {
                                linked: (row, col),
                                missing: (row, col + 1),
                                direction: Direction::East,
                            });
                        }
                        if !Self::west(east_cell) {
                            proof {
                                assert(!news_ok_at(w, h, cells, row as int, col as int));
                            }
                            return Err(NewsGridError::UnrequitedConnection {
                                linked: (row, col),
                                unlinked: (row, col + 1),
                                direction: Direction::East,
                            });
                        }
                    }
                    // West checks.
                    if Self::west(b) {
                        if col == 0 {
                            proof {
                                assert(!news_ok_at(w, h, cells, row as int, col as int));
                            }
                            return Err(NewsGridError::ConnectedOutOfBounds {
                                cell: (row, col),
                                direction: Direction::West,
                            });
                        }
                        let west_cell = news_grid[idx - 1];
                        if west_cell == 0 {
                            proof {
                                assert(!news_ok_at(w, h, cells, row as int, col as int));
                            }
                            return Err(NewsGridError::ConnectedOutOfMask {
                                linked: (row, col),
                                missing: (row, col - 1),
                                direction: Direction::West,
                            });
                        }
                        if !Self::east(west_cell) {
                            proof {
                                assert(!news_ok_at(w, h, cells, row as int, col as int));
                            }
                            return Err(NewsGridError::UnrequitedConnection {
                                linked: (row, col),
                                unlinked: (row, col - 1),
                                direction: Direction::West,
                            });
                        }
                    }
                    // South checks.
                    if Self::south(b) {
                        if row + 1 >= height {
                            proof {
                                assert(!news_ok_at(w, h, cells, row as int, col as int));
                            }
                            return Err(NewsGridError::ConnectedOutOfMask {
                                linked: (row, col),
                                missing: (row + 1, col),
                                direction: Direction::South,
                            });
                        }
                        let south_cell = news_grid[idx + width];
                        if south_cell == 0 {
                            proof {
                                assert(!news_ok_at(w, h, cells, row as int, col as int));
                            }
                            return Err(NewsGridError::ConnectedOutOfMask {
                                linked: (row, col),
                                missing: (row + 1, col),
                                direction: Direction::South,
                            });
                        }
                        if !Self::north(south_cell) {
                            proof {
                                assert(!news_ok_at(w, h, cells, row as int, col as int));
                            }
                            return Err(NewsGridError::UnrequitedConnection {
                                linked: (row, col),
                                unlinked: (row + 1, col),
                                direction: Direction::South,
                            });
                        }
                    }
                }
                proof {
                    assert(news_ok_at(w, h, cells, row as int, col as int));
                }
                col += 1;
            }
            row += 1;
        }
        proof {
            assert(news_ok(w, h, cells));
        }
        Ok(())
    }
}

/// Which positions a byte table declares present: the nonzero ones.
pub open spec fn nonzero_map(cells: Seq<u8>) -> Seq<bool> {
    Seq::new(cells.len(), |i: int| cells[i] != 0)
}

/// Two present positions of a region touch orthogonally.
pub open spec fn region_step(
    width: int,
    height: int,
    present: Seq<bool>,
    r1: int,
    c1: int,
    r2: int,
    c2: int,
) -> bool {
    &&& 0 <= r1 < height && 0 <= c1 < width && present[r1 * width + c1]
    &&& 0 <= r2 < height && 0 <= c2 < width && present[r2 * width + c2]
    &&& ((r1 == r2 && (c1 - c2 == 1 || c2 - c1 == 1))
        || (c1 == c2 && (r1 - r2 == 1 || r2 - r1 == 1)))
}

/// A walk of `n` orthogonal steps through present positions.
pub open spec fn region_steps(
    width: int,
    height: int,
    present: Seq<bool>,
    r1: int,
    c1: int,
    r2: int,
    c2: int,
    n: nat,
) -> bool
    decreases n,
{
    if n == 0 {
        r1 == r2 && c1 == c2 && 0 <= r1 < height && 0 <= c1 < width
            && present[r1 * width + c1]
    } else {
        exists|rm: int, cm: int|
            region_steps(width, height, present, r1, c1, rm, cm, (n - 1) as nat)
            && #[trigger] region_step(width, height, present, rm, cm, r2, c2)
    }
}

/// One present position can be reached from another through present
/// positions.
pub open spec fn region_reach(
    width: int,
    height: int,
    present: Seq<bool>,
    r1: int,
    c1: int,
    r2: int,
    c2: int,
) -> bool {
    exists|n: nat| region_steps(width, height, present, r1, c1, r2, c2, n)
}

/// All present positions form one connected region.
pub open spec fn region_connected(width: int, height: int, present: Seq<bool>) -> bool {
    forall|r1: int, c1: int, r2: int, c2: int|
        0 <= r1 < height && 0 <= c1 < width && present[r1 * width + c1]
        && 0 <= r2 < height && 0 <= c2 < width && present[r2 * width + c2]
        ==> #[trigger] region_reach(width, height, present, r1, c1, r2, c2)
}

impl MaskedGrid {
    /// Any two pool-adjacent cells sit at orthogonally touching held
    /// positions.
    proof fn lemma_adjacent_coords(self, a: NodeId, b: NodeId)
        requires
            self.wf(),
            self.pool.adjacent(a, b),
        ensures
            self.pool.valid(b),
            region_step(
                self.width as int,
                self.height as int,
                self.mask.cells@,
                self.pool.nodes@[a.0 as int].payload.0 as int,
                self.pool.nodes@[a.0 as int].payload.1 as int,
                self.pool.nodes@[b.0 as int].payload.0 as int,
                self.pool.nodes@[b.0 as int].payload.1 as int,
            ),
    {
        self.lemma_node_position(a.0 as int);
        assert(self.pool.node_ok(a.0 as int));
        let q = choose|q: int|
            0 <= q < self.pool.nodes@[a.0 as int].adjacencies@.len()
            && (#[trigger] self.pool.nodes@[a.0 as int].adjacencies@[q]) == b;
        assert(self.pool.valid(b));
        self.lemma_node_position(b.0 as int);
        let pa = self.pool.nodes@[a.0 as int].payload;
        let pb = self.pool.nodes@[b.0 as int].payload;
        assert(self.pool.adjacent(
            self.id_of(pa.0 as int, pa.1 as int),
            self.id_of(pb.0 as int, pb.1 as int),
        ) == self.orthogonal(pa.0 as int, pa.1 as int, pb.0 as int, pb.1 as int));
        assert(0 <= (pa.0 as int) * self.width + pa.1 < self.width * self.height)
            by (nonlinear_arith)
            requires
                0 <= (pa.0 as int) < self.height,
                0 <= (pa.1 as int) < self.width,
        {}
        assert(0 <= (pb.0 as int) * self.width + pb.1 < self.width * self.height)
            by (nonlinear_arith)
            requires
                0 <= (pb.0 as int) < self.height,
                0 <= (pb.1 as int) < self.width,
        {}
    }

    /// A walk through the pool's adjacencies maps onto a walk through the
    /// held positions.
    proof fn lemma_pool_steps_to_region(self, a: NodeId, b: NodeId, n: nat)
        requires
            self.wf(),
            self.pool.valid(a),
            self.pool.adj_steps(a, b, n),
        ensures
            region_steps(
                self.width as int,
                self.height as int,
                self.mask.cells@,
                self.pool.nodes@[a.0 as int].payload.0 as int,
                self.pool.nodes@[a.0 as int].payload.1 as int,
                self.pool.nodes@[b.0 as int].payload.0 as int,
                self.pool.nodes@[b.0 as int].payload.1 as int,
                n,
            ),
        decreases n,
    {
        let w = self.width as int;
        let h = self.height as int;
        if n == 0 {
            self.lemma_node_position(a.0 as int);
            let pa = self.pool.nodes@[a.0 as int].payload;
            assert(0 <= (pa.0 as int) * w + pa.1 < w * h) by (nonlinear_arith)
                requires
                    0 <= (pa.0 as int) < h,
                    0 <= (pa.1 as int) < w,
            {}
        } else {
            let mid = choose|mid: NodeId|
                self.pool.adj_steps(a, mid, (n - 1) as nat) && self.pool.valid(b)
                && #[trigger] self.pool.adj_touches(mid, b);
            self.pool.lemma_adj_steps_valid(a, mid, (n - 1) as nat);
            self.lemma_pool_steps_to_region(a, mid, (n - 1) as nat);
            let pm = self.pool.nodes@[mid.0 as int].payload;
            let pb = self.pool.nodes@[b.0 as int].payload;
            if self.pool.adjacent(mid, b) {
                self.lemma_adjacent_coords(mid, b);
            } else {
                assert(self.pool.adjacent(b, mid));
                self.lemma_adjacent_coords(b, mid);
                assert(region_step(
                    w, h, self.mask.cells@,
                    pm.0 as int, pm.1 as int, pb.0 as int, pb.1 as int));
            }
        }
    }

    /// A walk through the held positions maps onto a walk through the
    /// pool's adjacencies.
    proof fn lemma_region_steps_to_pool(self, r1: int, c1: int, r2: int, c2: int, n: nat)
        requires
            self.wf(),
            region_steps(
                self.width as int,
                self.height as int,
                self.mask.cells@,
                r1,
                c1,
                r2,
                c2,
                n,
            ),
        ensures
            self.mask.has(r1, c1),
            self.mask.has(r2, c2),
            self.pool.adj_steps(self.id_of(r1, c1), self.id_of(r2, c2), n),
        decreases n,
    {
        let w = self.width as int;
        let h = self.height as int;
        if n == 0 {
            self.lemma_id_of_valid(r1, c1);
        } else {
            let mc = choose|rm: int, cm: int|
                region_steps(w, h, self.mask.cells@, r1, c1, rm, cm, (n - 1) as nat)
                && #[trigger] region_step(w, h, self.mask.cells@, rm, cm, r2, c2);
            let rm = mc.0;
            let cm = mc.1;
            self.lemma_region_steps_to_pool(r1, c1, rm, cm, (n - 1) as nat);
            assert(self.mask.has(rm, cm) && self.mask.has(r2, c2));
            self.lemma_id_of_valid(rm, cm);
            self.lemma_id_of_valid(r2, c2);
            assert(self.orthogonal(rm, cm, r2, c2));
            assert(self.pool.adjacent(self.id_of(rm, cm), self.id_of(r2, c2)));
            assert(self.pool.adj_touches(self.id_of(rm, cm), self.id_of(r2, c2)));
        }
    }

    /// The pool's adjacency graph is one connected region exactly when the
    /// mask's held positions are.
    pub proof fn lemma_region_bridge(self)
        requires
            self.wf(),
        ensures
            self.pool.adj_connected()
                == region_connected(self.width as int, self.height as int, self.mask.cells@),
    {
        let w = self.width as int;
        let h = self.height as int;
        if self.pool.adj_connected() {
            assert forall|r1: int, c1: int, r2: int, c2: int|
                0 <= r1 < h && 0 <= c1 < w && self.mask.cells@[r1 * w + c1]
                && 0 <= r2 < h && 0 <= c2 < w && self.mask.cells@[r2 * w + c2]
                implies #[trigger] region_reach(
                    w, h, self.mask.cells@, r1, c1, r2, c2) by {
                assert(self.mask.has(r1, c1) && self.mask.has(r2, c2));
                self.lemma_id_of_valid(r1, c1);
                self.lemma_id_of_valid(r2, c2);
                let a = self.id_of(r1, c1);
                let b = self.id_of(r2, c2);
                assert(self.pool.adj_reach(a, b));
                let n = choose|n: nat| #[trigger] self.pool.adj_steps(a, b, n);
                self.lemma_pool_steps_to_region(a, b, n);
                assert(self.pool.nodes@[a.0 as int].payload == (r1 as usize, c1 as usize));
                assert(self.pool.nodes@[b.0 as int].payload == (r2 as usize, c2 as usize));
            }
        }
        if region_connected(w, h, self.mask.cells@) {
            assert forall|a: NodeId, b: NodeId|
                self.pool.valid(a) && self.pool.valid(b)
                implies #[trigger] self.pool.adj_reach(a, b) by {
                self.lemma_node_position(a.0 as int);
                self.lemma_node_position(b.0 as int);
                let pa = self.pool.nodes@[a.0 as int].payload;
                let pb = self.pool.nodes@[b.0 as int].payload;
                assert(0 <= (pa.0 as int) * w + pa.1 < w * h) by (nonlinear_arith)
                    requires
                        0 <= (pa.0 as int) < h,
                        0 <= (pa.1 as int) < w,
                {}
                assert(0 <= (pb.0 as int) * w + pb.1 < w * h) by (nonlinear_arith)
                    requires
                        0 <= (pb.0 as int) < h,
                        0 <= (pb.1 as int) < w,
                {}
                assert(region_reach(
                    w, h, self.mask.cells@,
                    pa.0 as int, pa.1 as int, pb.0 as int, pb.1 as int));
                let n = choose|n: nat|
                    #[trigger] region_steps(
                        w, h, self.mask.cells@,
                        pa.0 as int, pa.1 as int, pb.0 as int, pb.1 as int, n);
                self.lemma_region_steps_to_pool(
                    pa.0 as int, pa.1 as int, pb.0 as int, pb.1 as int, n);
                assert(self.id_of(pa.0 as int, pa.1 as int) == a);
                assert(self.id_of(pb.0 as int, pb.1 as int) == b);
            }
        }
    }
}

/// In a region holding every position of the rectangle, each position
/// walks to the top-left corner.
proof fn lemma_full_region_reaches_origin(
    width: int,
    height: int,
    present: Seq<bool>,
    r: int,
    c: int,
)
    requires
        width >= 1,
        height >= 1,
        present.len() == width * height,
        forall|j: int| 0 <= j < present.len() ==> #[trigger] present[j],
        0 <= r < height,
        0 <= c < width,
    ensures
        region_reach(width, height, present, r, c, 0, 0),
    decreases r + c,
{
    assert(0 <= r * width + c < width * height) by (nonlinear_arith)
        requires
            0 <= r < height,
            0 <= c < width,
    {}
    if c > 0 {
        assert(0 <= r * width + (c - 1) < width * height) by (nonlinear_arith)
            requires
                0 <= r < height,
                0 < c < width,
        {}
        assert(region_step(width, height, present, r, c - 1, r, c));
        lemma_full_region_reaches_origin(width, height, present, r, c - 1);
        let n = choose|n: nat|
            #[trigger] region_steps(width, height, present, r, c - 1, 0, 0, n);
        lemma_region_steps_prepend(width, height, present, r, c, r, c - 1, 0, 0, n);
    } else if r > 0 {
        assert(0 <= (r - 1) * width + c < width * height) by (nonlinear_arith)
            requires
                0 < r < height,
                0 <= c < width,
        {}
        assert(region_step(width, height, present, r - 1, c, r, c));
        lemma_full_region_reaches_origin(width, height, present, r - 1, c);
        let n = choose|n: nat|
            #[trigger] region_steps(width, height, present, r - 1, c, 0, 0, n);
        lemma_region_steps_prepend(width, height, present, r, c, r - 1, c, 0, 0, n);
    } else {
        assert(region_steps(width, height, present, 0, 0, 0, 0, 0));
    }
}

/// A region walk can be extended by one step at its start.
proof fn lemma_region_steps_prepend(
    width: int,
    height: int,
    present: Seq<bool>,
    r0: int,
    c0: int,
    r1: int,
    c1: int,
    r2: int,
    c2: int,
    n: nat,
)
    requires
        region_step(width, height, present, r1, c1, r0, c0),
        region_steps(width, height, present, r1, c1, r2, c2, n),
    ensures
        region_steps(width, height, present, r0, c0, r2, c2, n + 1),
    decreases n,
{
    if n == 0 {
        assert(region_steps(width, height, present, r0, c0, r0, c0, 0));
        assert(region_step(width, height, present, r0, c0, r1, c1));
        assert(region_steps(width, height, present, r0, c0, r2, c2, 1));
    } else {
        let mc = choose|rm: int, cm: int|
            region_steps(width, height, present, r1, c1, rm, cm, (n - 1) as nat)
            && #[trigger] region_step(width, height, present, rm, cm, r2, c2);
        lemma_region_steps_prepend(
            width, height, present, r0, c0, r1, c1, mc.0, mc.1, (n - 1) as nat);
    }
}

/// A full rectangle with at least one cell is one connected region.
pub proof fn lemma_full_region_connected(width: int, height: int, present: Seq<bool>)
    requires
        width >= 0,
        height >= 0,
        present.len() == width * height,
        forall|j: int| 0 <= j < present.len() ==> #[trigger] present[j],
    ensures
        region_connected(width, height, present),
{
    assert forall|r1: int, c1: int, r2: int, c2: int|
        0 <= r1 < height && 0 <= c1 < width && present[r1 * width + c1]
        && 0 <= r2 < height && 0 <= c2 < width && present[r2 * width + c2]
        implies #[trigger] region_reach(width, height, present, r1, c1, r2, c2) by {
        lemma_full_region_reaches_origin(width, height, present, r1, c1);
        lemma_full_region_reaches_origin(width, height, present, r2, c2);
        let n1 = choose|n: nat|
            #[trigger] region_steps(width, height, present, r1, c1, 0, 0, n);
        let n2 = choose|n: nat|
            #[trigger] region_steps(width, height, present, r2, c2, 0, 0, n);
        lemma_region_steps_reverse(width, height, present, r2, c2, 0, 0, n2);
        let n3 = choose|n: nat|
            #[trigger] region_steps(width, height, present, 0, 0, r2, c2, n);
        lemma_region_steps_concat(width, height, present, r1, c1, 0, 0, r2, c2, n1, n3);
    }
}

/// A region walk can be walked backwards.
proof fn lemma_region_steps_reverse(
    width: int,
    height: int,
    present: Seq<bool>,
    r1: int,
    c1: int,
    r2: int,
    c2: int,
    n: nat,
)
    requires
        region_steps(width, height, present, r1, c1, r2, c2, n),
    ensures
        region_steps(width, height, present, r2, c2, r1, c1, n),
    decreases n,
{
    if n > 0 {
        let mc = choose|rm: int, cm: int|
            region_steps(width, height, present, r1, c1, rm, cm, (n - 1) as nat)
            && #[trigger] region_step(width, height, present, rm, cm, r2, c2);
        lemma_region_steps_reverse(width, height, present, r1, c1, mc.0, mc.1, (n - 1) as nat);
        assert(region_step(width, height, present, r2, c2, mc.0, mc.1));
        lemma_region_steps_prepend(
            width, height, present, r2, c2, mc.0, mc.1, r1, c1, (n - 1) as nat);
    }
}

/// Region walks chain end to end.
proof fn lemma_region_steps_concat(
    width: int,
    height: int,
    present: Seq<bool>,
    r1: int,
    c1: int,
    rm: int,
    cm: int,
    r2: int,
    c2: int,
    n1: nat,
    n2: nat,
)
    requires
        region_steps(width, height, present, r1, c1, rm, cm, n1),
        region_steps(width, height, present, rm, cm, r2, c2, n2),
    ensures
        region_steps(width, height, present, r1, c1, r2, c2, n1 + n2),
    decreases n2,
{
    if n2 > 0 {
        let mid = choose|ra: int, ca: int|
            region_steps(width, height, present, rm, cm, ra, ca, (n2 - 1) as nat)
            && #[trigger] region_step(width, height, present, ra, ca, r2, c2);
        lemma_region_steps_concat(
            width, height, present, r1, c1, rm, cm, mid.0, mid.1, n1, (n2 - 1) as nat);
        assert(region_steps(width, height, present, r1, c1, r2, c2,
            (n1 + n2 - 1) as nat + 1));
    }
}

/// The direction bit declared from position `(r1, c1)` toward the
/// orthogonally neighboring position `(r2, c2)`.
pub open spec fn bit_between(
    width: int,
    cells: Seq<u8>,
    r1: int,
    c1: int,
    r2: int,
    c2: int,
) -> bool {
    if r2 == r1 - 1 && c2 == c1 {
        north_of_spec(cells[r1 * width + c1])
    } else if r2 == r1 + 1 && c2 == c1 {
        south_of_spec(cells[r1 * width + c1])
    } else if r2 == r1 && c2 == c1 - 1 {
        west_of_spec(cells[r1 * width + c1])
    } else if r2 == r1 && c2 == c1 + 1 {
        east_of_spec(cells[r1 * width + c1])
    } else {
        false
    }
}

impl MaskedGrid {
    /// Carves a bidirectional passage between the cells at two orthogonal
    /// held positions.
    fn link_toward(&mut self, row1: usize, col1: usize, row2: usize, col2: usize)
        requires
            old(self).wf(),
            old(self).orthogonal(row1 as int, col1 as int, row2 as int, col2 as int),
        ensures
            final(self).wf(),
            final(self).mask == old(self).mask,
            final(self).width == old(self).width,
            final(self).height == old(self).height,
            final(self).cell_grid == old(self).cell_grid,
            old(self).pool.links_extended(final(self).pool),
            final(self).linked_at_spec(row1 as int, col1 as int, row2 as int, col2 as int),
            final(self).linked_at_spec(row2 as int, col2 as int, row1 as int, col1 as int),
            forall|a1: int, b1: int, a2: int, b2: int|
                old(self).linked_at_spec(a1, b1, a2, b2)
                ==> final(self).linked_at_spec(a1, b1, a2, b2),
            forall|a1: int, b1: int, a2: int, b2: int|
                #[trigger] final(self).linked_at_spec(a1, b1, a2, b2)
                ==> old(self).linked_at_spec(a1, b1, a2, b2)
                    || (a1 == row1 && b1 == col1 && a2 == row2 && b2 == col2)
                    || (a1 == row2 && b1 == col2 && a2 == row1 && b2 == col1),
    {
        let here = match self.get_id_at(row1, col1) {
            Some(id) => id,
            None => {
                proof {
                    assert(false);
                }
                NodeId(0)
            },
        };
        let there = match self.get_id_at(row2, col2) {
            Some(id) => id,
            None => {
                proof {
                    assert(false);
                }
                NodeId(0)
            },
        };
        proof {
            self.lemma_id_of_valid(row1 as int, col1 as int);
            self.lemma_id_of_valid(row2 as int, col2 as int);
            assert(self.pool.adjacent(here, there));
            assert(self.pool.adjacent(there, here));
        }
        let ghost pre = *self;
        self.pool.link_cells(here, there, true);
        proof {
            MaskedGrid::lemma_wf_after_links(pre, *self);
            assert forall|a1: int, b1: int, a2: int, b2: int|
                #[trigger] self.linked_at_spec(a1, b1, a2, b2)
                implies pre.linked_at_spec(a1, b1, a2, b2)
                    || (a1 == row1 && b1 == col1 && a2 == row2 && b2 == col2)
                    || (a1 == row2 && b1 == col2 && a2 == row1 && b2 == col1) by {
                if !pre.linked_at_spec(a1, b1, a2, b2) {
                    let ida = self.id_of(a1, b1);
                    let idb = self.id_of(a2, b2);
                    assert(self.pool.linked(ida, idb));
                    assert((ida == here && idb == there) || (ida == there && idb == here));
                    if ida == here && idb == there {
                        pre.lemma_id_of_injective(a1, b1, row1 as int, col1 as int);
                        pre.lemma_id_of_injective(a2, b2, row2 as int, col2 as int);
                    } else {
                        pre.lemma_id_of_injective(a1, b1, row2 as int, col2 as int);
                        pre.lemma_id_of_injective(a2, b2, row1 as int, col1 as int);
                    }
                }
            }
        }
    }

    /// Deserializes a maze byte stream: a header of six 32-bit values
    /// (width, height, and a suggested start and end position, which are
    /// not validated), then one format byte per grid position. The mask is
    /// the set of positions with a nonzero byte; every declared link must
    /// be reciprocated and stay on the mask, and the resulting cells must
    /// form a single connected region.
    #[verifier::rlimit(100)]
    pub fn read_maze(bytes: &[u8]) -> (r: Result<MaskedGrid, GridReadError>)
        ensures
            ({
                let blen = bytes@.len() as int;
                match r {
                    Ok(g) => {
                        let w = g.width as int;
                        let h = g.height as int;
                        let body = bytes@.skip(24);
                        &&& blen >= 24
                        &&& g.wf()
                        &&& g.width as int
                            == be0(g.width as u32) * 0x1000000 + be1(g.width as u32) * 0x10000
                                + be2(g.width as u32) * 0x100 + be3(g.width as u32)
                        &&& bytes@[0] == be0(g.width as u32) && bytes@[1] == be1(g.width as u32)
                            && bytes@[2] == be2(g.width as u32)
                            && bytes@[3] == be3(g.width as u32)
                        &&& bytes@[4] == be0(g.height as u32) && bytes@[5] == be1(g.height as u32)
                            && bytes@[6] == be2(g.height as u32)
                            && bytes@[7] == be3(g.height as u32)
                        &&& blen - 24 == w * h
                        &&& news_ok(w, h, body)
                        &&& forall|rr: int, cc: int| g.in_bounds(rr, cc)
                            ==> (#[trigger] g.mask.has(rr, cc) <==> body[rr * w + cc] != 0)
                        &&& forall|r1: int, c1: int, r2: int, c2: int|
                            #[trigger] g.orthogonal(r1, c1, r2, c2)
                            ==> (g.linked_at_spec(r1, c1, r2, c2)
                                == bit_between(w, body, r1, c1, r2, c2))
                    },
                    Err(GridReadError::NotEnoughBytes) => true,
                    Err(GridReadError::TooManyBytes) => true,
                    Err(GridReadError::InvalidNewsGrid(_)) => true,
                    Err(GridReadError::DisjointCells) => true,
                }
            }),
            // Each outcome comes on exactly the inputs it names.
            (r is Ok) <==> ({
                let blen = bytes@.len() as int;
                let gw = be0_to_int(bytes@);
                let gh = be4_to_int(bytes@);
                &&& blen >= 24
                &&& blen - 24 == gw * gh
                &&& news_ok(gw, gh, bytes@.skip(24))
                &&& region_connected(gw, gh, nonzero_map(bytes@.skip(24)))
            }),
            (r matches Err(GridReadError::NotEnoughBytes)) <==> ({
                let blen = bytes@.len() as int;
                blen < 24 || blen - 24 < be0_to_int(bytes@) * be4_to_int(bytes@)
            }),
            (r matches Err(GridReadError::TooManyBytes)) <==> ({
                let blen = bytes@.len() as int;
                blen >= 24 && blen - 24 > be0_to_int(bytes@) * be4_to_int(bytes@)
            }),
            (r matches Err(GridReadError::InvalidNewsGrid(_))) <==> ({
                let blen = bytes@.len() as int;
                &&& blen >= 24
                &&& blen - 24 == be0_to_int(bytes@) * be4_to_int(bytes@)
                &&& !news_ok(be0_to_int(bytes@), be4_to_int(bytes@), bytes@.skip(24))
            }),
            (r matches Err(GridReadError::DisjointCells)) <==> ({
                let blen = bytes@.len() as int;
                let gw = be0_to_int(bytes@);
                let gh = be4_to_int(bytes@);
                &&& blen >= 24
                &&& blen - 24 == gw * gh
                &&& news_ok(gw, gh, bytes@.skip(24))
                &&& !region_connected(gw, gh, nonzero_map(bytes@.skip(24)))
            }),
    {
        if bytes.len() < 24 {
            return Err(GridReadError::NotEnoughBytes);
        }
        let width32 = read_u32_be(bytes, 0);
        let height32 = read_u32_be(bytes, 4);
        let width = width32 as usize;
        let height = height32 as usize;
        proof {
            assert(width as int == be0_to_int(bytes@));
            assert(height as int == be4_to_int(bytes@));
        }
        let body_len = bytes.len() - 24;
        if width != 0 && height != 0 {
            // Avoid computing width * height before knowing it fits: the
            // stream cannot be long enough for an oversized grid anyway.
            proof {
                assert((body_len / width < height) == (body_len < width * height))
                    by (nonlinear_arith)
                    requires
                        (width as int) >= 1,
                        (body_len as int) >= 0,
                        (height as int) >= 0,
                {}
            }
            if body_len / width < height {
                return Err(GridReadError::NotEnoughBytes);
            }
        }
        proof {
            if width != 0 && height != 0 {
                assert(width * height <= body_len);
            } else {
                assert(width * height == 0) by (nonlinear_arith)
                    requires
                        width == 0 || height == 0,
                {}
            }
        }
        let total = width * height;
        if body_len < total {
            return Err(GridReadError::NotEnoughBytes);
        }
        if body_len > total {
            return Err(GridReadError::TooManyBytes);
        }

        let mut news_grid: Vec<u8> = Vec::new();
        let mut k: usize = 0;
        while k < total
            invariant
                bytes@.len() == 24 + total,
                24 + total <= usize::MAX,
                k <= total,
                news_grid@.len() == k,
                forall|j: int| 0 <= j < k ==> #[trigger] news_grid@[j] == bytes@[24 + j],
            decreases total - k,
        {
            news_grid.push(bytes[24 + k]);
            k += 1;
        }
        proof {
            assert(news_grid@ =~= bytes@.skip(24));
        }

        match Self::validate_news_grid(width, height, &news_grid) {
            Ok(()) => {},
            Err(news_error) => {
                return Err(GridReadError::InvalidNewsGrid(news_error));
            },
        }

        let mut mask_cells: Vec<bool> = Vec::new();
        let mut k2: usize = 0;
        while k2 < total
            invariant
                news_grid@.len() == total,
                k2 <= total,
                mask_cells@.len() == k2,
                forall|j: int| 0 <= j < k2
                    ==> #[trigger] mask_cells@[j] == (news_grid@[j] != 0),
            decreases total - k2,
        {
            mask_cells.push(news_grid[k2] != 0);
            k2 += 1;
        }
        let mask = Mask::new(width, height, mask_cells);
        let mut result = MaskedGrid::new(width, height, mask);

        proof {
            assert(result.mask.cells@ =~= nonzero_map(bytes@.skip(24)));
            result.lemma_region_bridge();
        }
        if !result.pool.is_adjacently_connected() {
            return Err(GridReadError::DisjointCells);
        }

        // Carve the declared links.
        let ghost w = width as int;
        let ghost h = height as int;
        let ghost cells = news_grid@;
        let ghost assembled = result;
        proof {
            assert forall|rr: int, cc: int| 0 <= rr < h && 0 <= cc < w
                implies (#[trigger] result.mask.has(rr, cc)
                    <==> cells[rr * w + cc] != 0) by {
                assert(0 <= rr * w + cc < w * h) by (nonlinear_arith)
                    requires
                        0 <= rr < h,
                        0 <= cc < w,
                {}
            }
            assert forall|r1: int, c1: int, r2: int, c2: int|
                #[trigger] result.orthogonal(r1, c1, r2, c2)
                implies !result.linked_at_spec(r1, c1, r2, c2) by {
                if result.linked_at_spec(r1, c1, r2, c2) {
                    result.lemma_id_of_valid(r1, c1);
                    let links = result.pool.nodes@[result.id_of(r1, c1).0 as int].links@;
                    let kq = choose|kq: int|
                        0 <= kq < links.len() && links[kq] == result.id_of(r2, c2);
                    assert(false);
                }
            }
        }
        let mut row: usize = 0;
        while row < height
            invariant
                result.mask.wf(),
                result.width == width,
                result.height == height,
                result.mask == assembled.mask,
                result.cell_grid == assembled.cell_grid,
                result.wf(),
                w == width as int,
                h == height as int,
                news_grid@ == cells,
                news_grid@.len() == total,
                total == width * height,
                row <= height,
                assembled.pool.links_extended(result.pool),
                news_ok(w, h, cells),
                forall|rr: int, cc: int| 0 <= rr < h && 0 <= cc < w
                    ==> (#[trigger] result.mask.has(rr, cc) <==> cells[rr * w + cc] != 0),
                forall|a1: int, b1: int, a2: int, b2: int|
                    #[trigger] result.linked_at_spec(a1, b1, a2, b2)
                    ==> result.linked_at_spec(a2, b2, a1, b1),
                forall|r1: int, c1: int, r2: int, c2: int|
                    #[trigger] result.orthogonal(r1, c1, r2, c2)
                    ==> (result.linked_at_spec(r1, c1, r2, c2)
                        == ((r1 * w + c1 < row * w && bit_between(w, cells, r1, c1, r2, c2))
                            || (r2 * w + c2 < row * w
                                && bit_between(w, cells, r2, c2, r1, c1)))),
            decreases height - row,
        {
            let mut col: usize = 0;
            proof {
                assert(row * w + 0 == row * w);
            }
            while col < width
                invariant
                    result.mask.wf(),
                    result.width == width,
                    result.height == height,
                    result.mask == assembled.mask,
                    result.cell_grid == assembled.cell_grid,
                    result.wf(),
                    w == width as int,
                    h == height as int,
                    news_grid@ == cells,
                    news_grid@.len() == total,
                    total == width * height,
                    row < height,
                    col <= width,
                    assembled.pool.links_extended(result.pool),
                    news_ok(w, h, cells),
                    forall|rr: int, cc: int| 0 <= rr < h && 0 <= cc < w
                        ==> (#[trigger] result.mask.has(rr, cc) <==> cells[rr * w + cc] != 0),
                    forall|a1: int, b1: int, a2: int, b2: int|
                        #[trigger] result.linked_at_spec(a1, b1, a2, b2)
                        ==> result.linked_at_spec(a2, b2, a1, b1),
                    forall|r1: int, c1: int, r2: int, c2: int|
                        #[trigger] result.orthogonal(r1, c1, r2, c2)
                        ==> (result.linked_at_spec(r1, c1, r2, c2)
                            == ((r1 * w + c1 < row * w + col
                                    && bit_between(w, cells, r1, c1, r2, c2))
                                || (r2 * w + c2 < row * w + col
                                    && bit_between(w, cells, r2, c2, r1, c1)))),
                decreases width - col,
            {
                proof {
                    vstd::std_specs::vec::axiom_spec_len(&news_grid);
                    assert(0 <= row * width + col < width * height) by (nonlinear_arith)
                        requires
                            0 <= (row as int) < height,
                            0 <= (col as int) < width,
                    {}
                    if row > 0 {
                        assert((row - 1) * width + col == row * width + col - width
                            && row * width + col >= width) by (nonlinear_arith)
                            requires
                                row >= 1,
                                0 <= (col as int) < width,
                        {}
                    }
                    if row + 1 < height {
                        assert((row + 1) * width + col == row * width + col + width
                            && (row + 1) * width + col < width * height) by (nonlinear_arith)
                            requires
                                0 <= (col as int) < width,
                                0 <= (row as int),
                                row + 1 <= height - 1,
                        {}
                    }
                    assert(news_ok_at(w, h, cells, row as int, col as int));
                }
                let idx = row * width + col;
                let b = news_grid[idx];
                let ghost cell_start = result;
                if b != 0 {
                    if Self::north(b) {
                        let ghost pre = result;
                        result.link_toward(row, col, row - 1, col);
                        proof {
                            assembled.pool.lemma_links_extended_trans(
                                pre.pool, result.pool);
                            assert forall|a1: int, b1: int, a2: int, b2: int|
                                #[trigger] result.linked_at_spec(a1, b1, a2, b2)
                                implies result.linked_at_spec(a2, b2, a1, b1) by {
                                if pre.linked_at_spec(a1, b1, a2, b2) {
                                    assert(pre.linked_at_spec(a2, b2, a1, b1));
                                }
                            }
                        }
                    }
                    if Self::east(b) {
                        let ghost pre = result;
                        result.link_toward(row, col, row, col + 1);
                        proof {
                            assembled.pool.lemma_links_extended_trans(
                                pre.pool, result.pool);
                            assert forall|a1: int, b1: int, a2: int, b2: int|
                                #[trigger] result.linked_at_spec(a1, b1, a2, b2)
                                implies result.linked_at_spec(a2, b2, a1, b1) by {
                                if pre.linked_at_spec(a1, b1, a2, b2) {
                                    assert(pre.linked_at_spec(a2, b2, a1, b1));
                                }
                            }
                        }
                    }
                    if Self::west(b) {
                        let ghost pre = result;
                        result.link_toward(row, col, row, col - 1);
                        proof {
                            assembled.pool.lemma_links_extended_trans(
                                pre.pool, result.pool);
                            assert forall|a1: int, b1: int, a2: int, b2: int|
                                #[trigger] result.linked_at_spec(a1, b1, a2, b2)
                                implies result.linked_at_spec(a2, b2, a1, b1) by {
                                if pre.linked_at_spec(a1, b1, a2, b2) {
                                    assert(pre.linked_at_spec(a2, b2, a1, b1));
                                }
                            }
                        }
                    }
                    if Self::south(b) {
                        let ghost pre = result;
                        result.link_toward(row, col, row + 1, col);
                        proof {
                            assembled.pool.lemma_links_extended_trans(
                                pre.pool, result.pool);
                            assert forall|a1: int, b1: int, a2: int, b2: int|
                                #[trigger] result.linked_at_spec(a1, b1, a2, b2)
                                implies result.linked_at_spec(a2, b2, a1, b1) by {
                                if pre.linked_at_spec(a1, b1, a2, b2) {
                                    assert(pre.linked_at_spec(a2, b2, a1, b1));
                                }
                            }
                        }
                    }
                } else {
                    proof {
                        lemma_byte_bits(0, 0, 0, 0, 0);
                    }
                }
                proof {
                    let cur = row as int * w + col as int;
                    assert forall|r1: int, c1: int, r2: int, c2: int|
                        #[trigger] result.orthogonal(r1, c1, r2, c2)
                        implies (result.linked_at_spec(r1, c1, r2, c2)
                            == ((r1 * w + c1 < cur + 1
                                    && bit_between(w, cells, r1, c1, r2, c2))
                                || (r2 * w + c2 < cur + 1
                                    && bit_between(w, cells, r2, c2, r1, c1)))) by {
                        let p = r1 * w + c1;
                        let q = r2 * w + c2;
                        assert(cell_start.orthogonal(r1, c1, r2, c2));
                        assert(p != q && 0 <= p && 0 <= q) by (nonlinear_arith)
                            requires
                                0 <= r1 < h,
                                0 <= c1 < w,
                                0 <= r2 < h,
                                0 <= c2 < w,
                                (r1 != r2 || c1 != c2),
                                p == r1 * w + c1,
                                q == r2 * w + c2,
                        {}
                        if p == cur {
                            assert(r1 == row && c1 == col) by (nonlinear_arith)
                                requires
                                    0 <= r1 < h,
                                    0 <= c1 < w,
                                    0 <= (row as int) < h,
                                    0 <= (col as int) < w,
                                    r1 * w + c1 == (row as int) * w + (col as int),
                            {}
                        }
                        if q == cur {
                            assert(r2 == row && c2 == col) by (nonlinear_arith)
                                requires
                                    0 <= r2 < h,
                                    0 <= c2 < w,
                                    0 <= (row as int) < h,
                                    0 <= (col as int) < w,
                                    r2 * w + c2 == (row as int) * w + (col as int),
                            {}
                        }
                        if result.linked_at_spec(r1, c1, r2, c2) {
                            if cell_start.linked_at_spec(r1, c1, r2, c2) {
                                assert((p < cur && bit_between(w, cells, r1, c1, r2, c2))
                                    || (q < cur && bit_between(w, cells, r2, c2, r1, c1)));
                            } else {
                                // The pair was carved at this cell.
                                assert((r1 == row && c1 == col) || (r2 == row && c2 == col));
                            }
                        }
                        if p < cur + 1 && bit_between(w, cells, r1, c1, r2, c2) {
                            if p < cur {
                                assert(cell_start.linked_at_spec(r1, c1, r2, c2));
                                assert(result.linked_at_spec(r1, c1, r2, c2));
                            } else {
                                assert(p == cur && r1 == row && c1 == col);
                                assert(cells[cur] != 0);
                                assert(result.linked_at_spec(r1, c1, r2, c2));
                            }
                        }
                        if q < cur + 1 && bit_between(w, cells, r2, c2, r1, c1) {
                            assert(result.orthogonal(r2, c2, r1, c1));
                            assert(cell_start.orthogonal(r2, c2, r1, c1));
                            if q < cur {
                                assert(cell_start.linked_at_spec(r2, c2, r1, c1));
                                assert(result.linked_at_spec(r2, c2, r1, c1));
                                assert(result.linked_at_spec(r1, c1, r2, c2));
                            } else {
                                assert(q == cur && r2 == row && c2 == col);
                                assert(cells[cur] != 0);
                                assert(result.linked_at_spec(r2, c2, r1, c1));
                                assert(result.linked_at_spec(r1, c1, r2, c2));
                            }
                        }
                    }
                }
                col += 1;
            }
            proof {
                assert(row * w + w == (row + 1) * w) by (nonlinear_arith) {}
            }
            row += 1;
        }
        proof {
            assert forall|r1: int, c1: int, r2: int, c2: int|
                #[trigger] result.orthogonal(r1, c1, r2, c2)
                implies (result.linked_at_spec(r1, c1, r2, c2)
                    == bit_between(w, cells, r1, c1, r2, c2)) by {
                assert(0 <= r1 * w + c1 < h * w) by (nonlinear_arith)
                    requires
                        0 <= r1 < h,
                        0 <= c1 < w,
                {}
                assert(0 <= r2 * w + c2 < h * w) by (nonlinear_arith)
                    requires
                        0 <= r2 < h,
                        0 <= c2 < w,
                {}
                if !bit_between(w, cells, r1, c1, r2, c2)
                    && bit_between(w, cells, r2, c2, r1, c1) {
                    // Reciprocity from validation makes the two views agree.
                    assert(news_ok_at(w, h, cells, r2, c2));
                    assert(false);
                }
            }
        }
        Ok(result)
    }
}

/// The width field of a maze header, as an integer.
pub open spec fn be0_to_int(bytes: Seq<u8>) -> int {
    bytes[0] * 0x1000000 + bytes[1] * 0x10000 + bytes[2] * 0x100 + bytes[3]
}

/// The height field of a maze header, as an integer.
pub open spec fn be4_to_int(bytes: Seq<u8>) -> int {
    bytes[4] * 0x1000000 + bytes[5] * 0x10000 + bytes[6] * 0x100 + bytes[7]
}

/// Reads a big-endian 32-bit value.
fn read_u32_be(bytes: &[u8], at: usize) -> (r: u32)
    requires
        at + 4 <= bytes@.len(),
    ensures
        r == bytes@[at as int] * 0x1000000 + bytes@[at as int + 1] * 0x10000
            + bytes@[at as int + 2] * 0x100 + bytes@[at as int + 3],
        be0(r) == bytes@[at as int],
        be1(r) == bytes@[at as int + 1],
        be2(r) == bytes@[at as int + 2],
        be3(r) == bytes@[at as int + 3],
{
    let b0 = bytes[at];
    let b1 = bytes[at + 1];
    let b2 = bytes[at + 2];
    let b3 = bytes[at + 3];
    let r = (b0 as u32) * 0x1000000 + (b1 as u32) * 0x10000 + (b2 as u32) * 0x100 + (b3 as u32);
    proof {
        assert(be0(r) == b0 && be1(r) == b1 && be2(r) == b2 && be3(r) == b3) by (bit_vector)
            requires
                r == (b0 as u32) * 0x1000000 + (b1 as u32) * 0x10000 + (b2 as u32) * 0x100
                    + (b3 as u32),
        {}
    }
    r
}

impl MaskedGrid {
    /// The format byte of a held cell decodes to exactly its linked
    /// directions, and is zero exactly when none is linked.
    pub proof fn lemma_cell_bits(self, r: int, c: int)
        requires
            self.mask.has(r, c),
        ensures
            north_of_spec(self.byte_at(r, c)) == self.north_linked(r, c),
            east_of_spec(self.byte_at(r, c)) == self.east_linked(r, c),
            west_of_spec(self.byte_at(r, c)) == self.west_linked(r, c),
            south_of_spec(self.byte_at(r, c)) == self.south_linked(r, c),
            (self.byte_at(r, c) == 0) == (!self.north_linked(r, c) && !self.east_linked(r, c)
                && !self.west_linked(r, c) && !self.south_linked(r, c)),
    {
        let n8: u8 = if self.north_linked(r, c) {
            8
        } else {
            0
        };
        let e4: u8 = if self.east_linked(r, c) {
            4
        } else {
            0
        };
        let w2: u8 = if self.west_linked(r, c) {
            2
        } else {
            0
        };
        let s1: u8 = if self.south_linked(r, c) {
            1
        } else {
            0
        };
        lemma_byte_bits(self.byte_at(r, c), n8, e4, w2, s1);
    }

    /// The link relation between held positions is symmetric: the shape
    /// every generator leaves behind, since passages are carved in both
    /// directions.
    pub open spec fn links_symmetric(self) -> bool {
        forall|r1: int, c1: int, r2: int, c2: int|
            #[trigger] self.linked_at_spec(r1, c1, r2, c2)
            ==> self.linked_at_spec(r2, c2, r1, c1)
    }

    /// A linked pair of cells always sits on orthogonally neighboring
    /// positions.
    pub proof fn lemma_linked_is_orthogonal(self, r1: int, c1: int, r2: int, c2: int)
        requires
            self.wf(),
            self.linked_at_spec(r1, c1, r2, c2),
        ensures
            self.orthogonal(r1, c1, r2, c2),
    {
        self.lemma_id_of_valid(r1, c1);
        let node = self.pool.nodes@[self.id_of(r1, c1).0 as int];
        assert(self.pool.node_ok(self.id_of(r1, c1).0 as int));
        let q = choose|q: int|
            0 <= q < node.links@.len() && node.links@[q] == self.id_of(r2, c2);
        assert(node.adjacencies@.contains(self.id_of(r2, c2)));
        assert(self.pool.adjacent(self.id_of(r1, c1), self.id_of(r2, c2)));
    }

    /// Serializing a maze with symmetric links always yields a byte table
    /// that decoding will accept: every declared link stays on the grid,
    /// points at a present cell, and is reciprocated.
    ///
    /// One half of the binary round-trip guarantee.
    pub proof fn lemma_encoding_validates(self, body: Seq<u8>)
        requires
            self.wf(),
            self.links_symmetric(),
            body.len() == self.width * self.height,
            forall|r: int, c: int| self.in_bounds(r, c)
                ==> #[trigger] body[r * self.width + c] == self.byte_at(r, c),
        ensures
            news_ok(self.width as int, self.height as int, body),
    {
        let w = self.width as int;
        let h = self.height as int;
        assert forall|r: int, c: int| 0 <= r < h && 0 <= c < w
            implies #[trigger] news_ok_at(w, h, body, r, c) by {
            if news_present(w, h, body, r, c) {
                assert(body[r * w + c] == self.byte_at(r, c));
                assert(self.mask.has(r, c));
                self.lemma_cell_bits(r, c);
                let b = body[r * w + c];
                if north_of_spec(b) {
                    assert(self.linked_at_spec(r, c, r - 1, c));
                    assert(self.linked_at_spec(r - 1, c, r, c));
                    self.lemma_cell_bits(r - 1, c);
                    assert(self.south_linked(r - 1, c));
                    assert(body[(r - 1) * w + c] == self.byte_at(r - 1, c));
                    assert(south_of_spec(body[(r - 1) * w + c]));
                    assert(body[(r - 1) * w + c] != 0);
                }
                if east_of_spec(b) {
                    assert(self.linked_at_spec(r, c, r, c + 1));
                    assert(self.linked_at_spec(r, c + 1, r, c));
                    self.lemma_cell_bits(r, c + 1);
                    assert(self.west_linked(r, c + 1));
                    assert(body[r * w + c + 1] == self.byte_at(r, c + 1));
                    assert(west_of_spec(body[r * w + c + 1]));
                    assert(body[r * w + c + 1] != 0);
                }
                if west_of_spec(b) {
                    assert(self.linked_at_spec(r, c, r, c - 1));
                    assert(self.linked_at_spec(r, c - 1, r, c));
                    self.lemma_cell_bits(r, c - 1);
                    assert(self.east_linked(r, c - 1));
                    assert(body[r * w + c - 1] == self.byte_at(r, c - 1));
                    assert(east_of_spec(body[r * w + c - 1]));
                    assert(body[r * w + c - 1] != 0);
                }
                if south_of_spec(b) {
                    assert(self.linked_at_spec(r, c, r + 1, c));
                    assert(self.linked_at_spec(r + 1, c, r, c));
                    self.lemma_cell_bits(r + 1, c);
                    assert(self.north_linked(r + 1, c));
                    assert(body[(r + 1) * w + c] == self.byte_at(r + 1, c));
                    assert(north_of_spec(body[(r + 1) * w + c]));
                    assert(body[(r + 1) * w + c] != 0);
                }
            }
        }
    }

    /// Binary round trip: decoding the encoding of a maze yields a grid
    /// with exactly the same linked pairs, position by position.
    ///
    /// `body` stands for the per-cell bytes that serialization produced
    /// from `self`, and `decoded` for any grid deserialization accepted
    /// for them, described by their contracts.
    pub proof fn lemma_binary_round_trip(self, decoded: MaskedGrid, body: Seq<u8>)
        requires
            self.wf(),
            self.links_symmetric(),
            decoded.wf(),
            decoded.width == self.width,
            decoded.height == self.height,
            body.len() == self.width * self.height,
            forall|r: int, c: int| self.in_bounds(r, c)
                ==> #[trigger] body[r * self.width + c] == self.byte_at(r, c),
            forall|r: int, c: int| decoded.in_bounds(r, c)
                ==> (#[trigger] decoded.mask.has(r, c)
                    <==> body[r * decoded.width + c] != 0),
            forall|r1: int, c1: int, r2: int, c2: int|
                #[trigger] decoded.orthogonal(r1, c1, r2, c2)
                ==> (decoded.linked_at_spec(r1, c1, r2, c2)
                    == bit_between(decoded.width as int, body, r1, c1, r2, c2)),
        ensures
            forall|r1: int, c1: int, r2: int, c2: int|
                #[trigger] decoded.linked_at_spec(r1, c1, r2, c2)
                    == self.linked_at_spec(r1, c1, r2, c2),
    {
        let w = self.width as int;
        assert forall|r1: int, c1: int, r2: int, c2: int|
            #[trigger] decoded.linked_at_spec(r1, c1, r2, c2)
                == self.linked_at_spec(r1, c1, r2, c2) by {
            if self.linked_at_spec(r1, c1, r2, c2) {
                self.lemma_linked_is_orthogonal(r1, c1, r2, c2);
                self.lemma_cell_bits(r1, c1);
                self.lemma_cell_bits(r2, c2);
                assert(bit_between(w, body, r1, c1, r2, c2));
                assert(self.linked_at_spec(r2, c2, r1, c1));
                assert(body[r1 * w + c1] != 0 && body[r2 * w + c2] != 0);
                assert(decoded.mask.has(r1, c1) && decoded.mask.has(r2, c2));
                assert(decoded.orthogonal(r1, c1, r2, c2));
                assert(decoded.linked_at_spec(r1, c1, r2, c2));
            }
            if decoded.linked_at_spec(r1, c1, r2, c2) {
                decoded.lemma_linked_is_orthogonal(r1, c1, r2, c2);
                assert(bit_between(w, body, r1, c1, r2, c2));
                assert(body[r1 * w + c1] != 0);
                assert(self.mask.has(r1, c1));
                self.lemma_cell_bits(r1, c1);
                assert(self.linked_at_spec(r1, c1, r2, c2));
            }
        }
    }
}

impl MaskedGrid {
    /// A link walk of the maze maps onto a walk through the positions its
    /// encoding declares present: every node along it has a passage, so
    /// its format byte is nonzero.
    proof fn lemma_link_steps_to_encoded_region(self, body: Seq<u8>, a: NodeId, b: NodeId, n: nat)
        requires
            self.wf(),
            self.links_symmetric(),
            body.len() == self.width * self.height,
            forall|r: int, c: int| self.in_bounds(r, c)
                ==> #[trigger] body[r * self.width + c] == self.byte_at(r, c),
            self.pool.valid(a),
            self.pool.link_steps(a, b, n),
            nonzero_map(body)[
                self.pool.nodes@[a.0 as int].payload.0 as int * self.width
                    + self.pool.nodes@[a.0 as int].payload.1],
        ensures
            region_steps(
                self.width as int,
                self.height as int,
                nonzero_map(body),
                self.pool.nodes@[a.0 as int].payload.0 as int,
                self.pool.nodes@[a.0 as int].payload.1 as int,
                self.pool.nodes@[b.0 as int].payload.0 as int,
                self.pool.nodes@[b.0 as int].payload.1 as int,
                n,
            ),
        decreases n,
    {
        let w = self.width as int;
        let h = self.height as int;
        if n == 0 {
            self.lemma_node_position(a.0 as int);
            let pa = self.pool.nodes@[a.0 as int].payload;
            assert(0 <= (pa.0 as int) * w + pa.1 < w * h) by (nonlinear_arith)
                requires
                    0 <= (pa.0 as int) < h,
                    0 <= (pa.1 as int) < w,
            {}
        } else {
            let mid = choose|mid: NodeId|
                self.pool.link_steps(a, mid, (n - 1) as nat) && self.pool.valid(b)
                && #[trigger] self.pool.linked(mid, b);
            self.pool.lemma_link_steps_valid(a, mid, (n - 1) as nat);
            self.lemma_node_position(mid.0 as int);
            self.lemma_node_position(b.0 as int);
            let pm = self.pool.nodes@[mid.0 as int].payload;
            let pb = self.pool.nodes@[b.0 as int].payload;
            assert(self.linked_at_spec(pm.0 as int, pm.1 as int, pb.0 as int, pb.1 as int));
            assert(self.linked_at_spec(pb.0 as int, pb.1 as int, pm.0 as int, pm.1 as int));
            self.lemma_present_when_linked(body, pm.0 as int, pm.1 as int);
            self.lemma_present_when_linked(body, pb.0 as int, pb.1 as int);
            self.lemma_link_steps_to_encoded_region(body, a, mid, (n - 1) as nat);
            self.lemma_linked_is_orthogonal(pm.0 as int, pm.1 as int, pb.0 as int, pb.1 as int);
            assert(region_step(
                w, h, nonzero_map(body),
                pm.0 as int, pm.1 as int, pb.0 as int, pb.1 as int));
        }
    }

    /// A held position with at least one passage gets a nonzero byte in
    /// the encoding.
    proof fn lemma_present_when_linked(self, body: Seq<u8>, r: int, c: int)
        requires
            self.wf(),
            body.len() == self.width * self.height,
            forall|rr: int, cc: int| self.in_bounds(rr, cc)
                ==> #[trigger] body[rr * self.width + cc] == self.byte_at(rr, cc),
            exists|r2: int, c2: int| #[trigger] self.linked_at_spec(r, c, r2, c2),
        ensures
            self.mask.has(r, c),
            0 <= r * self.width + c < self.width * self.height,
            nonzero_map(body)[r * self.width + c],
    {
        let pick = choose|r2: int, c2: int| #[trigger] self.linked_at_spec(r, c, r2, c2);
        let r2 = pick.0;
        let c2 = pick.1;
        self.lemma_linked_is_orthogonal(r, c, r2, c2);
        self.lemma_cell_bits(r, c);
        assert(0 <= r * self.width + c < self.width * self.height) by (nonlinear_arith)
            requires
                0 <= r < self.height,
                0 <= c < self.width,
        {}
        if r2 == r - 1 && c2 == c {
            assert(self.north_linked(r, c));
        } else if r2 == r + 1 && c2 == c {
            assert(self.south_linked(r, c));
        } else if r2 == r && c2 == c - 1 {
            assert(self.west_linked(r, c));
        } else {
            assert(r2 == r && c2 == c + 1);
            assert(self.east_linked(r, c));
        }
        assert(self.byte_at(r, c) != 0);
    }

    /// The cells a serialized maze declares present form one connected
    /// region, provided the maze's own link graph connects all its cells.
    ///
    /// The other half of the binary round-trip guarantee: together with
    /// the validation guarantee, it makes deserialization owe success on
    /// any serialized connected maze.
    pub proof fn lemma_encoding_connected(self, body: Seq<u8>)
        requires
            self.wf(),
            self.links_symmetric(),
            self.pool.link_connected(),
            body.len() == self.width * self.height,
            forall|r: int, c: int| self.in_bounds(r, c)
                ==> #[trigger] body[r * self.width + c] == self.byte_at(r, c),
        ensures
            region_connected(
                self.width as int,
                self.height as int,
                nonzero_map(body),
            ),
    {
        let w = self.width as int;
        let h = self.height as int;
        let present = nonzero_map(body);
        assert forall|r1: int, c1: int, r2: int, c2: int|
            0 <= r1 < h && 0 <= c1 < w && present[r1 * w + c1]
            && 0 <= r2 < h && 0 <= c2 < w && present[r2 * w + c2]
            implies #[trigger] region_reach(w, h, present, r1, c1, r2, c2) by {
            assert(0 <= r1 * w + c1 < w * h) by (nonlinear_arith)
                requires
                    0 <= r1 < h,
                    0 <= c1 < w,
            {}
            assert(0 <= r2 * w + c2 < w * h) by (nonlinear_arith)
                requires
                    0 <= r2 < h,
                    0 <= c2 < w,
            {}
            assert(body[r1 * w + c1] == self.byte_at(r1, c1));
            assert(body[r2 * w + c2] == self.byte_at(r2, c2));
            assert(self.mask.has(r1, c1)) by {
                if !self.mask.has(r1, c1) {
                    assert(self.byte_at(r1, c1) == 0);
                }
            }
            assert(self.mask.has(r2, c2)) by {
                if !self.mask.has(r2, c2) {
                    assert(self.byte_at(r2, c2) == 0);
                }
            }
            self.lemma_id_of_valid(r1, c1);
            self.lemma_id_of_valid(r2, c2);
            let a = self.id_of(r1, c1);
            let b = self.id_of(r2, c2);
            assert(self.pool.link_reach(a, b));
            let n = choose|n: nat| #[trigger] self.pool.link_steps(a, b, n);
            assert(self.pool.nodes@[a.0 as int].payload == (r1 as usize, c1 as usize));
            assert(self.pool.nodes@[b.0 as int].payload == (r2 as usize, c2 as usize));
            self.lemma_link_steps_to_encoded_region(body, a, b, n);
        }
    }
}

/// The big-endian bytes of a 32-bit value recompose to the value.
proof fn lemma_be_roundtrip(x: u32)
    ensures
        be0(x) * 0x1000000 + be1(x) * 0x10000 + be2(x) * 0x100 + be3(x) == x,
{
    assert(((x >> 24) as u8) * 0x1000000 + ((x >> 16) as u8) * 0x10000
        + ((x >> 8) as u8) * 0x100 + (x as u8) == x) by (bit_vector) {}
}

impl MaskedGrid {
    /// Binary round trip, success half: the serialized bytes of a maze
    /// whose link graph connects all its cells meet every condition under
    /// which deserialization returns a grid.
    pub proof fn lemma_encoding_accepted(self, bytes: Seq<u8>)
        requires
            self.wf(),
            self.links_symmetric(),
            self.pool.link_connected(),
            self.width < 0x1_0000_0000,
            self.height < 0x1_0000_0000,
            bytes.len() == 24 + self.width * self.height,
            bytes[0] == be0(self.width as u32),
            bytes[1] == be1(self.width as u32),
            bytes[2] == be2(self.width as u32),
            bytes[3] == be3(self.width as u32),
            bytes[4] == be0(self.height as u32),
            bytes[5] == be1(self.height as u32),
            bytes[6] == be2(self.height as u32),
            bytes[7] == be3(self.height as u32),
            forall|r: int, c: int| self.in_bounds(r, c)
                ==> #[trigger] bytes[24 + r * self.width + c] == self.byte_at(r, c),
        ensures
            be0_to_int(bytes) == self.width as int,
            be4_to_int(bytes) == self.height as int,
            bytes.len() >= 24,
            bytes.len() - 24 == be0_to_int(bytes) * be4_to_int(bytes),
            news_ok(be0_to_int(bytes), be4_to_int(bytes), bytes.skip(24)),
            region_connected(
                be0_to_int(bytes),
                be4_to_int(bytes),
                nonzero_map(bytes.skip(24)),
            ),
    {
        lemma_be_roundtrip(self.width as u32);
        lemma_be_roundtrip(self.height as u32);
        assert(be0_to_int(bytes) == self.width as int);
        assert(be4_to_int(bytes) == self.height as int);
        let body = bytes.skip(24);
        assert(body.len() == self.width * self.height);
        assert forall|r: int, c: int| self.in_bounds(r, c)
            implies #[trigger] body[r * self.width + c] == self.byte_at(r, c) by {
            assert(0 <= r * self.width + c < self.width * self.height) by (nonlinear_arith)
                requires
                    0 <= r < self.height,
                    0 <= c < self.width,
            {}
            assert(body[r * self.width + c] == bytes[24 + r * self.width + c]);
        }
        self.lemma_encoding_validates(body);
        self.lemma_encoding_connected(body);
    }
}

/// A diagonal stripe pattern: the position is kept when its diagonal
/// offset lands in the first half of its stripe.
pub fn stripes_mask(
    width: usize,
    _height: usize,
    strip_width: usize,
    row: usize,
    col: usize,
) -> (r: bool)
    requires
        strip_width > 0,
        row <= width,
        width - row + col <= usize::MAX,
    ensures
        r == (((width - row + col) % (strip_width as int)) < strip_width as int / 2),
{
    (width - row + col) % strip_width < strip_width / 2
}

} // verus!