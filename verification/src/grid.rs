//! A flat rectangular grid of square cells: the simplest geometry that can
//! feed the graph pool. Cells know their row, column and the ids of their
//! four orthogonal neighbors.

use vstd::prelude::*;

use crate::pool::{lemma_boundary_edge, lemma_links_total_empty, lemma_links_total_update2, lemma_marked_full, links_total, lemma_marked_le, lemma_marked_of_clear, lemma_marked_set, lemma_reach_after_joining, marked_to, Node, NodeId, Pool};
use crate::rng::{rand_bool, rand_index, sample_uniform};

pub mod walker;

verus! {

/// A square cell of a [`FlatSquareGrid`]: its pool id, its position, and the
/// ids of the cells around it, where they exist.
pub struct FlatSquareCell {
    pub id: NodeId,
    pub row: usize,
    pub col: usize,
    pub north: Option<NodeId>,
    pub south: Option<NodeId>,
    pub east: Option<NodeId>,
    pub west: Option<NodeId>,
}

/// One of the four cardinal directions of a flat grid.
#[derive(PartialEq, Eq, Structural, Clone, Copy, Debug)]
pub enum Direction {
    North,
    South,
    East,
    West,
}

/// A rectangular grid backed by a node pool: every cell is adjacent to its
/// orthogonal neighbors and to nothing else.
pub struct FlatSquareGrid {
    pub node_pool: Pool<FlatSquareCell>,
    pub node_grid: Vec<Vec<NodeId>>,
    pub width: usize,
    pub height: usize,
}

impl FlatSquareCell {
    /// The neighbor id stored for the given direction.
    pub open spec fn at_direction_spec(self, direction: Direction) -> Option<NodeId> {
        match direction {
            Direction::North => self.north,
            Direction::South => self.south,
            Direction::East => self.east,
            Direction::West => self.west,
        }
    }

    pub fn new(id: NodeId, row: usize, col: usize) -> (r: Self)
        ensures
            r.id == id,
            r.row == row,
            r.col == col,
            r.north == None::<NodeId>,
            r.south == None::<NodeId>,
            r.east == None::<NodeId>,
            r.west == None::<NodeId>,
    {
        FlatSquareCell { id, row, col, north: None, south: None, east: None, west: None }
    }

    /// The id of the neighbor in the given direction, if the grid continues
    /// that way.
    pub fn at_direction(&self, direction: Direction) -> (r: Option<NodeId>)
        ensures
            r == self.at_direction_spec(direction),
    {
        match direction {
            Direction::North => self.north,
            Direction::South => self.south,
            Direction::East => self.east,
            Direction::West => self.west,
        }
    }

    /// The neighbors that exist, in north, south, east, west order.
    pub fn neighbors(&self) -> (r: Vec<NodeId>)
        ensures
            forall|y: NodeId| #[trigger] r@.contains(y)
                <==> (self.north == Some(y) || self.south == Some(y)
                    || self.east == Some(y) || self.west == Some(y)),
    {
        let mut r: Vec<NodeId> = Vec::new();
        let ghost s0 = r@;
        if let Some(id) = self.north {
            r.push(id);
        }
        let ghost s1 = r@;
        if let Some(id) = self.south {
            r.push(id);
        }
        let ghost s2 = r@;
        if let Some(id) = self.east {
            r.push(id);
        }
        let ghost s3 = r@;
        if let Some(id) = self.west {
            r.push(id);
        }
        proof {
            assert forall|y: NodeId| #[trigger] r@.contains(y)
                implies (self.north == Some(y) || self.south == Some(y)
                    || self.east == Some(y) || self.west == Some(y)) by {
                lemma_push_steps(s0, s1, self.north, y);
                lemma_push_steps(s1, s2, self.south, y);
                lemma_push_steps(s2, s3, self.east, y);
                lemma_push_steps(s3, r@, self.west, y);
            }
            assert forall|y: NodeId|
                self.north == Some(y) || self.south == Some(y)
                || self.east == Some(y) || self.west == Some(y)
                implies #[trigger] r@.contains(y) by {
                lemma_push_steps(s0, s1, self.north, y);
                lemma_push_steps(s1, s2, self.south, y);
                lemma_push_steps(s2, s3, self.east, y);
                lemma_push_steps(s3, r@, self.west, y);
            }
        }
        r
    }
}

/// Stepping a sequence by an optional push changes membership exactly by
/// the pushed element.
pub(crate) proof fn lemma_push_steps(pre: Seq<NodeId>, post: Seq<NodeId>, pushed: Option<NodeId>, y: NodeId)
    requires
        match pushed {
            Some(e) => post == pre.push(e),
            None => post == pre,
        },
    ensures
        post.contains(y) <==> (pre.contains(y) || pushed == Some(y)),
{
    match pushed {
        Some(e) => {
            if post.contains(y) {
                let k = choose|k: int| 0 <= k < post.len() && post[k] == y;
                if k < pre.len() {
                    assert(pre[k] == y);
                }
            }
            if pre.contains(y) {
                let k = choose|k: int| 0 <= k < pre.len() && pre[k] == y;
                assert(post[k] == y);
            }
            if y == e {
                assert(post[post.len() - 1] == y);
            }
        },
        None => {},
    }
}

/// The node for position `(r, c)` of a `g_width` by `g_height` grid is
/// fully built: it carries the flattened id, no links, the four direction
/// fields, and an adjacency set holding exactly the orthogonal neighbors.
pub open spec fn built_cell_ok(
    g_width: int,
    g_height: int,
    nodes: Seq<Node<FlatSquareCell>>,
    r: int,
    c: int,
) -> bool {
    let node = nodes[r * g_width + c];
    &&& node.id == NodeId((r * g_width + c) as usize)
    &&& node.links@.len() == 0
    &&& node.adjacencies@.no_duplicates()
    &&& node.payload.id == node.id
    &&& node.payload.row == r
    &&& node.payload.col == c
    &&& node.payload.north == (if r > 0 {
        Some(NodeId(((r - 1) * g_width + c) as usize))
    } else {
        None::<NodeId>
    })
    &&& node.payload.south == (if r < g_height - 1 {
        Some(NodeId(((r + 1) * g_width + c) as usize))
    } else {
        None::<NodeId>
    })
    &&& node.payload.west == (if c > 0 {
        Some(NodeId((r * g_width + c - 1) as usize))
    } else {
        None::<NodeId>
    })
    &&& node.payload.east == (if c < g_width - 1 {
        Some(NodeId((r * g_width + c + 1) as usize))
    } else {
        None::<NodeId>
    })
    &&& forall|y: NodeId| #[trigger] node.adjacencies@.contains(y)
        <==> (node.payload.north == Some(y) || node.payload.south == Some(y)
            || node.payload.west == Some(y) || node.payload.east == Some(y))
}

/// `(r, c)` flattens to index `i` of a grid `g_width` cells wide.
pub open spec fn coords_match(g_width: int, r: int, c: int, i: int) -> bool {
    r * g_width + c == i
}

/// Every index below `g_width * g_height` is the flattening of some
/// in-bounds position.
pub(crate) proof fn lemma_coords_of_index(g_width: int, g_height: int, i: int)
    requires
        g_width >= 0,
        g_height >= 0,
        0 <= i < g_width * g_height,
    ensures
        exists|r: int, c: int|
            0 <= r < g_height && 0 <= c < g_width && #[trigger] coords_match(g_width, r, c, i),
{
    assert(g_width >= 1) by (nonlinear_arith)
        requires
            0 <= i < g_width * g_height,
            g_width >= 0,
    {}
    let r = i / g_width;
    let c = i % g_width;
    assert(0 <= r < g_height && 0 <= c < g_width && r * g_width + c == i) by (nonlinear_arith)
        requires
            0 <= i < g_width * g_height,
            g_width >= 1,
            r == i / g_width,
            c == i % g_width,
    {}
    assert(coords_match(g_width, r, c, i));
}

impl FlatSquareGrid {
    /// The flattened pool index of the cell at `(r, c)`.
    pub open spec fn idx_of(self, r: int, c: int) -> int {
        r * self.width + c
    }

    /// `(r, c)` lies on the grid.
    pub open spec fn in_bounds(self, r: int, c: int) -> bool {
        0 <= r < self.height && 0 <= c < self.width
    }

    /// The cell payload stored at `(r, c)`.
    pub open spec fn cell_at(self, r: int, c: int) -> FlatSquareCell {
        self.node_pool.nodes@[self.idx_of(r, c)].payload
    }

    /// The id of the cell at `(r, c)`.
    pub open spec fn id_at(self, r: int, c: int) -> NodeId {
        NodeId((r * self.width + c) as usize)
    }

    /// Two positions touch orthogonally.
    pub open spec fn orthogonal(self, r1: int, c1: int, r2: int, c2: int) -> bool {
        self.in_bounds(r1, c1) && self.in_bounds(r2, c2)
        && ((r1 == r2 && (c1 - c2 == 1 || c2 - c1 == 1))
            || (c1 == c2 && (r1 - r2 == 1 || r2 - r1 == 1)))
    }

    /// The grid dimensions and the id table are consistent.
    pub open spec fn dims_ok(self) -> bool {
        &&& self.width * self.height <= usize::MAX
        &&& self.node_pool.nodes@.len() == self.width * self.height
        &&& self.node_grid@.len() == self.height
        &&& forall|r: int| 0 <= r < self.height
            ==> (#[trigger] self.node_grid@[r])@.len() == self.width
        &&& forall|r: int, c: int| self.in_bounds(r, c)
            ==> (#[trigger] self.node_grid@[r]@[c]) == self.id_at(r, c)
    }

    /// Every cell payload carries its own id, position and correct
    /// neighbor ids.
    pub open spec fn cells_ok(self) -> bool {
        forall|r: int, c: int| self.in_bounds(r, c) ==> {
            let cell = #[trigger] self.cell_at(r, c);
            &&& cell.id == self.id_at(r, c)
            &&& cell.row == r
            &&& cell.col == c
            &&& cell.north == (if r > 0 { Some(self.id_at(r - 1, c)) } else { None::<NodeId> })
            &&& cell.south == (if r < self.height - 1 {
                Some(self.id_at(r + 1, c))
            } else {
                None::<NodeId>
            })
            &&& cell.west == (if c > 0 { Some(self.id_at(r, c - 1)) } else { None::<NodeId> })
            &&& cell.east == (if c < self.width - 1 {
                Some(self.id_at(r, c + 1))
            } else {
                None::<NodeId>
            })
        }
    }

    /// Adjacency in the pool is exactly orthogonal neighborhood on the grid.
    pub open spec fn adj_ok(self) -> bool {
        forall|r1: int, c1: int, r2: int, c2: int|
            self.in_bounds(r1, c1) && self.in_bounds(r2, c2)
            ==> (#[trigger] self.node_pool.adjacent(self.id_at(r1, c1), self.id_at(r2, c2))
                == self.orthogonal(r1, c1, r2, c2))
    }

    /// Full well-formedness of the grid.
    pub open spec fn wf(self) -> bool {
        &&& self.node_pool.wf()
        &&& self.dims_ok()
        &&& self.cells_ok()
        &&& self.adj_ok()
    }

    /// No passages are carved yet.
    pub open spec fn untouched(self) -> bool {
        forall|i: int| 0 <= i < self.node_pool.nodes@.len()
            ==> (#[trigger] self.node_pool.nodes@[i]).links@.len() == 0
    }

    /// Distinct in-bounds positions have distinct flattened indices.
    pub proof fn lemma_idx_unique(self, r1: int, c1: int, r2: int, c2: int)
        requires
            self.in_bounds(r1, c1),
            self.in_bounds(r2, c2),
            self.idx_of(r1, c1) == self.idx_of(r2, c2),
        ensures
            r1 == r2 && c1 == c2,
    {
        assert(r1 == r2 && c1 == c2) by (nonlinear_arith)
            requires
                0 <= r1 < self.height,
                0 <= r2 < self.height,
                0 <= c1 < self.width,
                0 <= c2 < self.width,
                r1 * self.width + c1 == r2 * self.width + c2,
        {}
    }

    /// Every in-bounds position has an in-range flattened index.
    pub proof fn lemma_idx_bound(self, r: int, c: int)
        requires
            self.in_bounds(r, c),
        ensures
            0 <= self.idx_of(r, c) < self.width * self.height,
    {
        assert(0 <= r * self.width + c < self.width * self.height) by (nonlinear_arith)
            requires
                0 <= r < self.height,
                0 <= c < self.width,
        {}
    }

    /// Builds a fresh `width` by `height` grid: every cell adjacent to its
    /// orthogonal neighbors, no passages carved.
    pub fn new(width: usize, height: usize) -> (g: FlatSquareGrid)
        requires
            width * height <= usize::MAX,
        ensures
            g.wf(),
            g.width == width,
            g.height == height,
            g.untouched(),
    {
        let w = width;
        let h = height;
        let mut nodes: Vec<Node<FlatSquareCell>> = Vec::new();
        let mut node_grid: Vec<Vec<NodeId>> = Vec::new();
        let mut row: usize = 0;
        while row < h
            invariant
                w == width && h == height,
                width * height <= usize::MAX,
                row <= h,
                nodes@.len() == row * w,
                node_grid@.len() == row,
                forall|r: int| 0 <= r < row ==> (#[trigger] node_grid@[r])@.len() == w,
                forall|r: int, c: int| 0 <= r < row && 0 <= c < w
                    ==> (#[trigger] node_grid@[r]@[c]) == NodeId((r * w + c) as usize),
                forall|r: int, c: int| 0 <= r < h && 0 <= c < w && r * w + c < nodes@.len()
                    ==> #[trigger] built_cell_ok(w as int, h as int, nodes@, r, c),
            decreases h - row,
        {
            let mut grid_row: Vec<NodeId> = Vec::new();
            let mut col: usize = 0;
            proof {
                assert(row * w + 0 == row * w);
            }
            while col < w
                invariant
                    w == width && h == height,
                    width * height <= usize::MAX,
                    row < h,
                    col <= w,
                    nodes@.len() == row * w + col,
                    grid_row@.len() == col,
                    forall|c: int| 0 <= c < col
                        ==> (#[trigger] grid_row@[c]) == NodeId((row * w + c) as usize),
                    forall|r: int, c: int| 0 <= r < h && 0 <= c < w && r * w + c < nodes@.len()
                        ==> #[trigger] built_cell_ok(w as int, h as int, nodes@, r, c),
                decreases w - col,
            {
                proof {
                    assert(0 <= row * w + col < w * h) by (nonlinear_arith)
                        requires
                            0 <= row < h,
                            0 <= col < w,
                    {}
                    if row > 0 {
                        assert(row * w + col >= w) by (nonlinear_arith)
                            requires
                                row >= 1,
                                col >= 0,
                                w >= 0,
                        {}
                    }
                    if row + 1 < h {
                        assert((row + 1) * w + col < w * h) by (nonlinear_arith)
                            requires
                                0 <= col < w,
                                0 <= row,
                                row + 1 <= h - 1,
                        {}
                        assert(row * w + col + w == (row + 1) * w + col) by (nonlinear_arith) {}
                    }
                }
                let idx = row * w + col;
                let north = if row > 0 {
                    Some(NodeId(idx - w))
                } else {
                    None
                };
                let south = if row + 1 < h {
                    Some(NodeId(idx + w))
                } else {
                    None
                };
                let west = if col > 0 {
                    Some(NodeId(idx - 1))
                } else {
                    None
                };
                let east = if col + 1 < w {
                    Some(NodeId(idx + 1))
                } else {
                    None
                };
                proof {
                    assert((row - 1) * w + col == idx - w && (row + 1) * w + col == idx + w)
                        by (nonlinear_arith)
                        requires
                            idx == row * w + col,
                    {}
                    assert(w >= 1);
                }
                let mut adjacencies: Vec<NodeId> = Vec::new();
                let ghost s0 = adjacencies@;
                if let Some(nb) = north {
                    adjacencies.push(nb);
                }
                let ghost s1 = adjacencies@;
                if let Some(nb) = south {
                    adjacencies.push(nb);
                }
                let ghost s2 = adjacencies@;
                if let Some(nb) = west {
                    adjacencies.push(nb);
                }
                let ghost s3 = adjacencies@;
                if let Some(nb) = east {
                    adjacencies.push(nb);
                }
                proof {
                    assert forall|y: NodeId| #[trigger] adjacencies@.contains(y)
                        implies (north == Some(y) || south == Some(y)
                            || west == Some(y) || east == Some(y)) by {
                        lemma_push_steps(s0, s1, north, y);
                        lemma_push_steps(s1, s2, south, y);
                        lemma_push_steps(s2, s3, west, y);
                        lemma_push_steps(s3, adjacencies@, east, y);
                    }
                    assert forall|y: NodeId|
                        north == Some(y) || south == Some(y)
                        || west == Some(y) || east == Some(y)
                        implies #[trigger] adjacencies@.contains(y) by {
                        lemma_push_steps(s0, s1, north, y);
                        lemma_push_steps(s1, s2, south, y);
                        lemma_push_steps(s2, s3, west, y);
                        lemma_push_steps(s3, adjacencies@, east, y);
                    }
                    // The four candidate ids are pairwise distinct, so the
                    // vector stays duplicate-free.
                    assert(adjacencies@.no_duplicates()) by {
                        assert forall|m: int, n: int| 0 <= m < n < adjacencies@.len()
                            implies adjacencies@[m] != adjacencies@[n] by {
                            assert(adjacencies@.contains(adjacencies@[m]));
                            assert(adjacencies@.contains(adjacencies@[n]));
                            lemma_push_steps(s0, s1, north, adjacencies@[m]);
                            lemma_push_steps(s1, s2, south, adjacencies@[m]);
                            lemma_push_steps(s2, s3, west, adjacencies@[m]);
                            lemma_push_steps(s3, adjacencies@, east, adjacencies@[m]);
                            if w == 1 {
                                assert(west is None && east is None);
                            }
                        }
                    }
                }
                let payload = FlatSquareCell {
                    id: NodeId(idx),
                    row,
                    col,
                    north,
                    south,
                    east,
                    west,
                };
                let ghost nodes0 = nodes@;
                nodes.push(Node {
                    id: NodeId(idx),
                    links: Vec::new(),
                    adjacencies,
                    payload,
                });
                grid_row.push(NodeId(idx));
                proof {
                    assert forall|r: int, c: int|
                        0 <= r < h && 0 <= c < w && r * w + c < nodes@.len()
                        implies #[trigger] built_cell_ok(w as int, h as int, nodes@, r, c) by {
                        if r * w + c < nodes0.len() {
                            assert(built_cell_ok(w as int, h as int, nodes0, r, c));
                            assert(nodes@[r * w + c] == nodes0[r * w + c]);
                        } else {
                            assert(r * w + c == idx) by (nonlinear_arith)
                                requires
                                    0 <= r < h,
                                    0 <= c < w,
                                    nodes0.len() == row * w + col,
                                    nodes@.len() == nodes0.len() + 1,
                                    r * w + c < nodes@.len(),
                                    r * w + c >= nodes0.len(),
                                    idx == row * w + col,
                            {}
                            assert(r == row && c == col) by (nonlinear_arith)
                                requires
                                    0 <= r < h,
                                    0 <= c < w,
                                    0 <= row < h,
                                    0 <= col < w,
                                    r * w + c == row * w + col,
                            {}
                            assert(nodes@[r * w + c] == nodes@[nodes@.len() - 1]);
                        }
                    }
                }
                col += 1;
            }
            node_grid.push(grid_row);
            proof {
                assert(row * w + w == (row + 1) * w) by (nonlinear_arith) {}
            }
            row += 1;
        }
        let g = FlatSquareGrid { node_pool: Pool { nodes }, node_grid, width, height };
        proof {
            assert(h * w == w * h) by (nonlinear_arith) {}
            assert(g.node_pool.nodes@.len() == w * h);
            assert forall|r: int, c: int| g.in_bounds(r, c)
                implies #[trigger] built_cell_ok(
                    w as int, h as int, g.node_pool.nodes@, r, c) by {
                g.lemma_idx_bound(r, c);
            }
            // dims
            assert(g.dims_ok());
            // cells
            assert forall|r: int, c: int| g.in_bounds(r, c)
                implies {
                    let cell = #[trigger] g.cell_at(r, c);
                    &&& cell.id == g.id_at(r, c)
                    &&& cell.row == r
                    &&& cell.col == c
                    &&& cell.north == (if r > 0 {
                        Some(g.id_at(r - 1, c))
                    } else {
                        None::<NodeId>
                    })
                    &&& cell.south == (if r < g.height - 1 {
                        Some(g.id_at(r + 1, c))
                    } else {
                        None::<NodeId>
                    })
                    &&& cell.west == (if c > 0 {
                        Some(g.id_at(r, c - 1))
                    } else {
                        None::<NodeId>
                    })
                    &&& cell.east == (if c < g.width - 1 {
                        Some(g.id_at(r, c + 1))
                    } else {
                        None::<NodeId>
                    })
                } by {
                assert(built_cell_ok(w as int, h as int, g.node_pool.nodes@, r, c));
                g.lemma_idx_bound(r, c);
            }
            // well-formed pool
            assert forall|i: int| 0 <= i < g.node_pool.nodes@.len()
                implies g.node_pool.node_ok(i) by {
                lemma_coords_of_index(w as int, h as int, i);
                let r = choose|r: int, c: int|
                    0 <= r < h && 0 <= c < w && #[trigger] coords_match(w as int, r, c, i);
                let rr = r.0;
                let cc = r.1;
                assert(built_cell_ok(w as int, h as int, g.node_pool.nodes@, rr, cc));
                let node = g.node_pool.nodes@[i];
                assert forall|k: int| 0 <= k < node.adjacencies@.len()
                    implies (#[trigger] node.adjacencies@[k]).0 < g.node_pool.nodes@.len() by {
                    assert(node.adjacencies@.contains(node.adjacencies@[k]));
                    let y = node.adjacencies@[k];
                    if node.payload.north == Some(y) {
                        assert(0 <= (rr - 1) * w + cc < w * h) by (nonlinear_arith)
                            requires 0 < rr < h, 0 <= cc < w,
                        {}
                    } else if node.payload.south == Some(y) {
                        assert(0 <= (rr + 1) * w + cc < w * h) by (nonlinear_arith)
                            requires 0 <= rr < h - 1, 0 <= cc < w,
                        {}
                    } else if node.payload.west == Some(y) {
                        assert(0 <= rr * w + cc - 1 < w * h) by (nonlinear_arith)
                            requires 0 <= rr < h, 0 < cc < w,
                        {}
                    } else {
                        assert(0 <= rr * w + cc + 1 < w * h) by (nonlinear_arith)
                            requires 0 <= rr < h, 0 <= cc < w - 1,
                        {}
                    }
                }
            }
            // adjacency is exactly orthogonality
            assert forall|r1: int, c1: int, r2: int, c2: int|
                g.in_bounds(r1, c1) && g.in_bounds(r2, c2)
                implies (#[trigger] g.node_pool.adjacent(g.id_at(r1, c1), g.id_at(r2, c2))
                    == g.orthogonal(r1, c1, r2, c2)) by {
                g.lemma_idx_bound(r1, c1);
                g.lemma_idx_bound(r2, c2);
                assert(built_cell_ok(w as int, h as int, g.node_pool.nodes@, r1, c1));
                let node = g.node_pool.nodes@[r1 * w + c1];
                let y = g.id_at(r2, c2);
                if g.node_pool.adjacent(g.id_at(r1, c1), g.id_at(r2, c2)) {
                    if node.payload.north == Some(y) {
                        assert(r1 > 0);
                        g.lemma_idx_bound(r1 - 1, c1);
                        g.lemma_idx_unique(r1 - 1, c1, r2, c2);
                    } else if node.payload.south == Some(y) {
                        assert(r1 < h - 1);
                        g.lemma_idx_bound(r1 + 1, c1);
                        g.lemma_idx_unique(r1 + 1, c1, r2, c2);
                    } else if node.payload.west == Some(y) {
                        assert(c1 > 0);
                        g.lemma_idx_bound(r1, c1 - 1);
                        g.lemma_idx_unique(r1, c1 - 1, r2, c2);
                    } else {
                        assert(c1 < w - 1);
                        g.lemma_idx_bound(r1, c1 + 1);
                        g.lemma_idx_unique(r1, c1 + 1, r2, c2);
                    }
                }
                if g.orthogonal(r1, c1, r2, c2) {
                    if r2 == r1 - 1 && c2 == c1 {
                        assert(node.payload.north == Some(y));
                        assert(node.adjacencies@.contains(y));
                    } else if r2 == r1 + 1 && c2 == c1 {
                        assert(node.payload.south == Some(y));
                        assert(node.adjacencies@.contains(y));
                    } else if r2 == r1 && c2 == c1 - 1 {
                        assert(node.payload.west == Some(y));
                        assert(node.adjacencies@.contains(y));
                    } else {
                        assert(r2 == r1 && c2 == c1 + 1);
                        assert(node.payload.east == Some(y));
                        assert(node.adjacencies@.contains(y));
                    }
                }
            }
            assert(g.adj_ok());
            assert forall|i: int| 0 <= i < g.node_pool.nodes@.len()
                implies (#[trigger] g.node_pool.nodes@[i]).links@.len() == 0 by {
                lemma_coords_of_index(w as int, h as int, i);
                let r = choose|r: int, c: int|
                    0 <= r < h && 0 <= c < w && #[trigger] coords_match(w as int, r, c, i);
                assert(built_cell_ok(w as int, h as int, g.node_pool.nodes@, r.0, r.1));
            }
        }
        g
    }

    /// The geometric facts the generation algorithms lean on: adjacency is
    /// symmetric, no cell is adjacent to itself, and on a grid of at least
    /// two cells every cell has a neighbor.
    pub proof fn lemma_adjacency_shape(self)
        requires
            self.wf(),
        ensures
            self.node_pool.adj_symmetric(),
            self.node_pool.adj_irreflexive(),
            self.node_pool.nodes@.len() > 1 ==> self.node_pool.no_dead_ends(),
    {
        assert forall|a: NodeId, b: NodeId| #[trigger] self.node_pool.adjacent(a, b)
            implies self.node_pool.adjacent(b, a) by {
            self.lemma_wf_position(a);
            let ra = self.node_pool.nodes@[a.0 as int].payload.row as int;
            let ca = self.node_pool.nodes@[a.0 as int].payload.col as int;
            assert(self.node_pool.node_ok(a.0 as int));
            let q = choose|q: int|
                0 <= q < self.node_pool.nodes@[a.0 as int].adjacencies@.len()
                && (#[trigger] self.node_pool.nodes@[a.0 as int].adjacencies@[q]) == b;
            assert(self.node_pool.valid(b));
            self.lemma_wf_position(b);
            let rb = self.node_pool.nodes@[b.0 as int].payload.row as int;
            let cb = self.node_pool.nodes@[b.0 as int].payload.col as int;
            assert(self.node_pool.adjacent(self.id_at(ra, ca), self.id_at(rb, cb))
                == self.orthogonal(ra, ca, rb, cb));
            assert(self.orthogonal(rb, cb, ra, ca));
        }
        assert forall|a: NodeId| !(#[trigger] self.node_pool.adjacent(a, a)) by {
            if self.node_pool.adjacent(a, a) {
                self.lemma_wf_position(a);
                let ra = self.node_pool.nodes@[a.0 as int].payload.row as int;
                let ca = self.node_pool.nodes@[a.0 as int].payload.col as int;
                assert(self.node_pool.adjacent(self.id_at(ra, ca), self.id_at(ra, ca))
                    == self.orthogonal(ra, ca, ra, ca));
            }
        }
        if self.node_pool.nodes@.len() > 1 {
            assert forall|i: int| 0 <= i < self.node_pool.nodes@.len()
                implies (#[trigger] self.node_pool.nodes@[i]).adjacencies@.len() > 0 by {
                let a = NodeId(i as usize);
                self.lemma_wf_position(a);
                let ra = self.node_pool.nodes@[i].payload.row as int;
                let ca = self.node_pool.nodes@[i].payload.col as int;
                assert(self.width * self.height > 1);
                if self.width >= 2 {
                    if ca > 0 {
                        assert(self.orthogonal(ra, ca, ra, ca - 1));
                        assert(self.node_pool.adjacent(
                            self.id_at(ra, ca), self.id_at(ra, ca - 1)));
                        assert(self.node_pool.nodes@[i].adjacencies@.contains(
                            self.id_at(ra, ca - 1)));
                        let q = choose|q: int|
                            0 <= q < self.node_pool.nodes@[i].adjacencies@.len()
                            && self.node_pool.nodes@[i].adjacencies@[q]
                                == self.id_at(ra, ca - 1);
                    } else {
                        assert(self.orthogonal(ra, ca, ra, ca + 1));
                        assert(self.node_pool.adjacent(
                            self.id_at(ra, ca), self.id_at(ra, ca + 1)));
                        assert(self.node_pool.nodes@[i].adjacencies@.contains(
                            self.id_at(ra, ca + 1)));
                        let q = choose|q: int|
                            0 <= q < self.node_pool.nodes@[i].adjacencies@.len()
                            && self.node_pool.nodes@[i].adjacencies@[q]
                                == self.id_at(ra, ca + 1);
                    }
                } else {
                    assert(self.height >= 2) by (nonlinear_arith)
                        requires
                            self.width * self.height > 1,
                            self.width <= 1,
                            self.height >= 0,
                            self.width >= 0,
                    {}
                    assert(self.width == 1) by (nonlinear_arith)
                        requires
                            self.width * self.height > 1,
                            self.width <= 1,
                            self.width >= 0,
                    {}
                    if ra > 0 {
                        assert(self.orthogonal(ra, ca, ra - 1, ca));
                        assert(self.node_pool.adjacent(
                            self.id_at(ra, ca), self.id_at(ra - 1, ca)));
                        assert(self.node_pool.nodes@[i].adjacencies@.contains(
                            self.id_at(ra - 1, ca)));
                        let q = choose|q: int|
                            0 <= q < self.node_pool.nodes@[i].adjacencies@.len()
                            && self.node_pool.nodes@[i].adjacencies@[q]
                                == self.id_at(ra - 1, ca);
                    } else {
                        assert(self.orthogonal(ra, ca, ra + 1, ca));
                        assert(self.node_pool.adjacent(
                            self.id_at(ra, ca), self.id_at(ra + 1, ca)));
                        assert(self.node_pool.nodes@[i].adjacencies@.contains(
                            self.id_at(ra + 1, ca)));
                        let q = choose|q: int|
                            0 <= q < self.node_pool.nodes@[i].adjacencies@.len()
                            && self.node_pool.nodes@[i].adjacencies@[q]
                                == self.id_at(ra + 1, ca);
                    }
                }
            }
        }
    }

    /// Every cell of a grid reaches the top-left corner through
    /// adjacencies.
    pub proof fn lemma_cell_reaches_origin(self, r: int, c: int)
        requires
            self.wf(),
            self.in_bounds(r, c),
        ensures
            self.node_pool.adj_reach(self.id_at(r, c), self.id_at(0, 0)),
        decreases r + c,
    {
        self.lemma_idx_bound(r, c);
        self.lemma_idx_bound(0, 0);
        if c > 0 {
            self.lemma_idx_bound(r, c - 1);
            assert(self.orthogonal(r, c, r, c - 1));
            assert(self.node_pool.adjacent(self.id_at(r, c), self.id_at(r, c - 1)));
            assert(self.node_pool.adj_steps(self.id_at(r, c), self.id_at(r, c), 0));
            assert(self.node_pool.adj_touches(self.id_at(r, c), self.id_at(r, c - 1)));
            assert(self.node_pool.adj_steps(self.id_at(r, c), self.id_at(r, c - 1), 1));
            self.lemma_cell_reaches_origin(r, c - 1);
            self.node_pool.lemma_adj_reach_trans(
                self.id_at(r, c), self.id_at(r, c - 1), self.id_at(0, 0));
        } else if r > 0 {
            self.lemma_idx_bound(r - 1, c);
            assert(self.orthogonal(r, c, r - 1, c));
            assert(self.node_pool.adjacent(self.id_at(r, c), self.id_at(r - 1, c)));
            assert(self.node_pool.adj_steps(self.id_at(r, c), self.id_at(r, c), 0));
            assert(self.node_pool.adj_touches(self.id_at(r, c), self.id_at(r - 1, c)));
            assert(self.node_pool.adj_steps(self.id_at(r, c), self.id_at(r - 1, c), 1));
            self.lemma_cell_reaches_origin(r - 1, c);
            self.node_pool.lemma_adj_reach_trans(
                self.id_at(r, c), self.id_at(r - 1, c), self.id_at(0, 0));
        } else {
            self.node_pool.lemma_adj_reach_refl(self.id_at(0, 0));
        }
    }

    /// A rectangular grid's adjacency graph is one connected region.
    pub proof fn lemma_grid_connected(self)
        requires
            self.wf(),
        ensures
            self.node_pool.adj_connected(),
    {
        assert forall|a: NodeId, b: NodeId|
            self.node_pool.valid(a) && self.node_pool.valid(b)
            implies #[trigger] self.node_pool.adj_reach(a, b) by {
            self.lemma_wf_position(a);
            self.lemma_wf_position(b);
            let ra = self.node_pool.nodes@[a.0 as int].payload.row as int;
            let ca = self.node_pool.nodes@[a.0 as int].payload.col as int;
            let rb = self.node_pool.nodes@[b.0 as int].payload.row as int;
            let cb = self.node_pool.nodes@[b.0 as int].payload.col as int;
            self.lemma_cell_reaches_origin(ra, ca);
            self.lemma_cell_reaches_origin(rb, cb);
            self.node_pool.lemma_adj_reach_sym(b, self.id_at(0, 0));
            self.node_pool.lemma_adj_reach_trans(a, self.id_at(0, 0), b);
        }
    }

    /// The total number of cells.
    pub fn size(&self) -> (r: usize)
        requires
            self.wf(),
        ensures
            r == self.node_pool.nodes@.len(),
    {
        self.node_pool.nodes.len()
    }

    /// The position of a cell, looked up by id.
    pub fn get_position_by_id(&self, id: NodeId) -> (r: (usize, usize))
        requires
            self.wf(),
            self.node_pool.valid(id),
        ensures
            self.in_bounds(r.0 as int, r.1 as int),
            self.id_at(r.0 as int, r.1 as int) == id,
    {
        let cell = self.get_by_id(id);
        proof {
            self.lemma_wf_position(id);
        }
        (cell.row, cell.col)
    }

    /// Every valid id names exactly one in-bounds cell.
    pub proof fn lemma_wf_position(self, id: NodeId)
        requires
            self.wf(),
            self.node_pool.valid(id),
        ensures
            self.in_bounds(
                self.node_pool.nodes@[id.0 as int].payload.row as int,
                self.node_pool.nodes@[id.0 as int].payload.col as int,
            ),
            self.id_at(
                self.node_pool.nodes@[id.0 as int].payload.row as int,
                self.node_pool.nodes@[id.0 as int].payload.col as int,
            ) == id,
    {
        let i = id.0 as int;
        let w = self.width as int;
        let h = self.height as int;
        let r = i / w;
        let c = i % w;
        assert(0 <= i < w * h);
        assert(w >= 1) by (nonlinear_arith)
            requires
                0 <= i < w * h,
                w >= 0,
        {}
        assert(0 <= r < h && 0 <= c < w && r * w + c == i) by (nonlinear_arith)
            requires
                0 <= i < w * h,
                w >= 1,
                r == i / w,
                c == i % w,
        {}
        assert(self.in_bounds(r, c));
        assert(self.cell_at(r, c).row == r && self.cell_at(r, c).col == c);
        assert(self.id_at(r, c) == id);
    }

    /// Borrows the cell with the given id.
    pub fn get_by_id(&self, id: NodeId) -> (r: &FlatSquareCell)
        requires
            self.node_pool.valid(id),
        ensures
            *r == self.node_pool.nodes@[id.0 as int].payload,
    {
        &self.node_pool.get(id).payload
    }

    /// Mutably borrows the cell with the given id.
    pub fn get_by_id_mut(&mut self, id: NodeId) -> (r: &mut FlatSquareCell)
        requires
            old(self).node_pool.valid(id),
        ensures
            *r == old(self).node_pool.nodes@[id.0 as int].payload,
            final(self).width == old(self).width,
            final(self).height == old(self).height,
            final(self).node_grid == old(self).node_grid,
            final(self).node_pool.nodes@.len() == old(self).node_pool.nodes@.len(),
            forall|i: int| 0 <= i < old(self).node_pool.nodes@.len() && i != id.0 as int
                ==> final(self).node_pool.nodes@[i] == old(self).node_pool.nodes@[i],
            final(self).node_pool.nodes@[id.0 as int].id
                == old(self).node_pool.nodes@[id.0 as int].id,
            final(self).node_pool.nodes@[id.0 as int].links@
                == old(self).node_pool.nodes@[id.0 as int].links@,
            final(self).node_pool.nodes@[id.0 as int].adjacencies@
                == old(self).node_pool.nodes@[id.0 as int].adjacencies@,
            final(self).node_pool.nodes@[id.0 as int].payload == *final(r),
    {
        &mut self.node_pool.get_mut(id).payload
    }

    /// Borrows the cell at a position.
    pub fn get_by_position(&self, row: usize, col: usize) -> (r: &FlatSquareCell)
        requires
            self.wf(),
            self.in_bounds(row as int, col as int),
        ensures
            *r == self.cell_at(row as int, col as int),
    {
        proof {
            self.lemma_idx_bound(row as int, col as int);
        }
        let id = self.node_grid[row][col];
        self.get_by_id(id)
    }

    /// Mutably borrows the cell at a position.
    pub fn get_by_position_mut(&mut self, row: usize, col: usize) -> (r: &mut FlatSquareCell)
        requires
            old(self).wf(),
            old(self).in_bounds(row as int, col as int),
        ensures
            *r == old(self).cell_at(row as int, col as int),
            final(self).width == old(self).width,
            final(self).height == old(self).height,
            final(self).node_grid == old(self).node_grid,
            final(self).node_pool.nodes@.len() == old(self).node_pool.nodes@.len(),
            forall|i: int|
                0 <= i < old(self).node_pool.nodes@.len()
                && i != old(self).idx_of(row as int, col as int)
                ==> final(self).node_pool.nodes@[i] == old(self).node_pool.nodes@[i],
            final(self).node_pool.nodes@[old(self).idx_of(row as int, col as int)].payload
                == *final(r),
            final(self).node_pool.nodes@[old(self).idx_of(row as int, col as int)].id
                == old(self).node_pool.nodes@[old(self).idx_of(row as int, col as int)].id,
            final(self).node_pool.nodes@[old(self).idx_of(row as int, col as int)].links@
                == old(self).node_pool.nodes@[old(self).idx_of(row as int, col as int)].links@,
            final(self).node_pool.nodes@[old(self).idx_of(row as int, col as int)].adjacencies@
                == old(self).node_pool.nodes@[
                    old(self).idx_of(row as int, col as int)].adjacencies@,
    {
        proof {
            self.lemma_idx_bound(row as int, col as int);
        }
        let id = self.node_grid[row][col];
        self.get_by_id_mut(id)
    }

    /// Checks whether two cells are connected by a passage.
    pub fn is_linked(&self, here: NodeId, there: NodeId) -> (r: bool)
        requires
            self.node_pool.valid(here),
        ensures
            r == self.node_pool.linked(here, there),
    {
        self.node_pool.is_linked(here, there)
    }

    /// Checks whether the cells at two positions are connected by a passage.
    pub fn is_linked_at(&self, row1: usize, col1: usize, row2: usize, col2: usize) -> (r: bool)
        requires
            self.wf(),
            self.in_bounds(row1 as int, col1 as int),
            self.in_bounds(row2 as int, col2 as int),
        ensures
            r == self.node_pool.linked(
                self.id_at(row1 as int, col1 as int),
                self.id_at(row2 as int, col2 as int),
            ),
    {
        proof {
            self.lemma_idx_bound(row1 as int, col1 as int);
        }
        let here = self.get_by_position(row1, col1).id;
        let there = self.get_by_position(row2, col2).id;
        self.is_linked(here, there)
    }

    /// Carves a passage between the cells at two positions, which must be
    /// adjacent on the grid.
    pub fn link_cells_at(&mut self, here: (usize, usize), there: (usize, usize))
        requires
            old(self).wf(),
            old(self).orthogonal(
                here.0 as int,
                here.1 as int,
                there.0 as int,
                there.1 as int,
            ),
        ensures
            final(self).wf(),
            final(self).width == old(self).width,
            final(self).height == old(self).height,
            final(self).node_grid == old(self).node_grid,
            final(self).node_pool.nodes@.len() == old(self).node_pool.nodes@.len(),
            forall|a: NodeId, b: NodeId|
                final(self).node_pool.adjacent(a, b) == old(self).node_pool.adjacent(a, b),
            forall|i: int| 0 <= i < old(self).node_pool.nodes@.len() ==> {
                &&& (#[trigger] final(self).node_pool.nodes@[i]).payload
                    == old(self).node_pool.nodes@[i].payload
                &&& final(self).node_pool.nodes@[i].id == old(self).node_pool.nodes@[i].id
                &&& final(self).node_pool.nodes@[i].adjacencies@
                    == old(self).node_pool.nodes@[i].adjacencies@
            },
            forall|a: NodeId, b: NodeId| old(self).node_pool.linked(a, b)
                ==> final(self).node_pool.linked(a, b),
            forall|a: NodeId, b: NodeId| #[trigger] final(self).node_pool.linked(a, b)
                ==> old(self).node_pool.linked(a, b)
                    || (a == old(self).id_at(here.0 as int, here.1 as int)
                        && b == old(self).id_at(there.0 as int, there.1 as int))
                    || (b == old(self).id_at(here.0 as int, here.1 as int)
                        && a == old(self).id_at(there.0 as int, there.1 as int)),
            final(self).node_pool.linked(
                old(self).id_at(here.0 as int, here.1 as int),
                old(self).id_at(there.0 as int, there.1 as int),
            ),
            final(self).node_pool.linked(
                old(self).id_at(there.0 as int, there.1 as int),
                old(self).id_at(here.0 as int, here.1 as int),
            ),
    {
        proof {
            old(self).lemma_idx_bound(here.0 as int, here.1 as int);
            old(self).lemma_idx_bound(there.0 as int, there.1 as int);
        }
        let cell1 = self.get_by_position(here.0, here.1).id;
        let cell2 = self.get_by_position(there.0, there.1).id;
        self.node_pool.link_cells(cell1, cell2, true);
        proof {
            assert forall|r1: int, c1: int, r2: int, c2: int|
                self.in_bounds(r1, c1) && self.in_bounds(r2, c2)
                implies (#[trigger] self.node_pool.adjacent(self.id_at(r1, c1), self.id_at(r2, c2))
                    == self.orthogonal(r1, c1, r2, c2)) by {
                assert(old(self).node_pool.adjacent(
                    old(self).id_at(r1, c1),
                    old(self).id_at(r2, c2),
                ) == old(self).orthogonal(r1, c1, r2, c2));
            }
            assert forall|r: int, c: int| self.in_bounds(r, c)
                implies (#[trigger] self.cell_at(r, c)) == old(self).cell_at(r, c) by {
                old(self).lemma_idx_bound(r, c);
            }
        }
    }
}

/// How a binary-tree pass decides its upward-or-rightward coin for a cell:
/// one constant chance, or a chance looked up in a stored per-cell grid.
/// A chance is a numerator against the settings' shared denominator.
pub enum BinaryTreeProbabilityType {
    Constant(u32),
    PerCell { rows: Vec<Vec<u32>> },
}

/// Settings for the binary-tree pass.
pub struct BinaryTreeSettings {
    pub probability_north: BinaryTreeProbabilityType,
    pub denominator: u32,
}

impl BinaryTreeSettings {
    pub open spec fn wf(self) -> bool {
        self.denominator > 0
    }

    /// The numerator used for the cell at `(row, col)`: positions outside a
    /// stored per-cell grid count as zero.
    pub open spec fn probability_spec(self, row: int, col: int) -> u32 {
        match self.probability_north {
            BinaryTreeProbabilityType::Constant(p) => p,
            BinaryTreeProbabilityType::PerCell { rows } => if 0 <= row < rows@.len()
                && 0 <= col < rows@[row]@.len() {
                rows@[row]@[col]
            } else {
                0
            },
        }
    }

    /// A constant chance of linking north, as a fraction.
    pub fn with_probability_north(numerator: u32, denominator: u32) -> (r: Self)
        requires
            denominator > 0,
        ensures
            r.wf(),
            r.probability_north == BinaryTreeProbabilityType::Constant(numerator),
            r.denominator == denominator,
    {
        BinaryTreeSettings {
            probability_north: BinaryTreeProbabilityType::Constant(numerator),
            denominator,
        }
    }

    /// A per-cell chance of linking north, backed by a stored grid of
    /// numerators over one shared denominator.
    pub fn with_custom_probability(rows: Vec<Vec<u32>>, denominator: u32) -> (r: Self)
        requires
            denominator > 0,
        ensures
            r.wf(),
            r.probability_north == (BinaryTreeProbabilityType::PerCell { rows }),
            r.denominator == denominator,
    {
        BinaryTreeSettings {
            probability_north: BinaryTreeProbabilityType::PerCell { rows },
            denominator,
        }
    }

    /// Looks up the chance of linking north for a cell.
    pub fn get_probability(&self, row: usize, col: usize) -> (r: u32)
        ensures
            r == self.probability_spec(row as int, col as int),
    {
        match &self.probability_north {
            BinaryTreeProbabilityType::Constant(p) => *p,
            BinaryTreeProbabilityType::PerCell { rows } => {
                if row < rows.len() {
                    let cells = &rows[row];
                    if col < cells.len() {
                        cells[col]
                    } else {
                        0
                    }
                } else {
                    0
                }
            },
        }
    }
}

impl FlatSquareGrid {
    /// The cell at `(r, c)` shares a passage with its northern or its
    /// eastern neighbor: the shape a binary-tree pass guarantees everywhere
    /// but the top-right corner.
    pub open spec fn linked_upward(self, r: int, c: int) -> bool {
        (r > 0 && self.node_pool.linked(self.id_at(r, c), self.id_at(r - 1, c))
            && self.node_pool.linked(self.id_at(r - 1, c), self.id_at(r, c)))
        || (c < self.width - 1
            && self.node_pool.linked(self.id_at(r, c), self.id_at(r, c + 1))
            && self.node_pool.linked(self.id_at(r, c + 1), self.id_at(r, c)))
    }

    /// With every cell linked north or east, every cell reaches the
    /// top-right corner through passages, and back.
    proof fn lemma_upward_reaches_corner(self, r: int, c: int)
        requires
            self.wf(),
            forall|rr: int, cc: int|
                self.in_bounds(rr, cc) && (rr > 0 || cc < self.width - 1)
                ==> #[trigger] self.linked_upward(rr, cc),
            self.in_bounds(r, c),
        ensures
            self.node_pool.link_reach(self.id_at(r, c), self.id_at(0, self.width - 1)),
            self.node_pool.link_reach(self.id_at(0, self.width - 1), self.id_at(r, c)),
        decreases r * self.width + (self.width - 1 - c),
    {
        let corner = self.id_at(0, self.width - 1);
        if r == 0 && c == self.width - 1 {
            self.lemma_idx_bound(r, c);
            self.node_pool.lemma_link_reach_refl(corner);
        } else {
            assert(self.linked_upward(r, c));
            let here = self.id_at(r, c);
            if r > 0 && self.node_pool.linked(here, self.id_at(r - 1, c))
                && self.node_pool.linked(self.id_at(r - 1, c), here) {
                let next = self.id_at(r - 1, c);
                self.lemma_idx_bound(r, c);
                self.lemma_idx_bound(r - 1, c);
                assert(self.node_pool.link_steps(here, here, 0));
                assert(self.node_pool.link_steps(here, next, 1));
                assert(self.node_pool.link_steps(next, next, 0));
                assert(self.node_pool.link_steps(next, here, 1));
                assert((r - 1) * self.width + (self.width - 1 - c)
                    < r * self.width + (self.width - 1 - c)) by (nonlinear_arith)
                    requires
                        self.width >= 1,
                        r >= 1,
                {}
                self.lemma_upward_reaches_corner(r - 1, c);
                self.node_pool.lemma_link_reach_trans(here, next, corner);
                self.node_pool.lemma_link_reach_trans(corner, next, here);
            } else {
                let next = self.id_at(r, c + 1);
                self.lemma_idx_bound(r, c);
                self.lemma_idx_bound(r, c + 1);
                assert(self.node_pool.link_steps(here, here, 0));
                assert(self.node_pool.link_steps(here, next, 1));
                assert(self.node_pool.link_steps(next, next, 0));
                assert(self.node_pool.link_steps(next, here, 1));
                self.lemma_upward_reaches_corner(r, c + 1);
                self.node_pool.lemma_link_reach_trans(here, next, corner);
                self.node_pool.lemma_link_reach_trans(corner, next, here);
            }
        }
    }

    /// Growing only the link relation preserves the whole grid shape.
    pub proof fn lemma_wf_after_link_growth(pre: FlatSquareGrid, post: FlatSquareGrid)
        requires
            pre.wf(),
            post.width == pre.width,
            post.height == pre.height,
            post.node_grid == pre.node_grid,
            post.node_pool.wf(),
            pre.node_pool.links_extended(post.node_pool),
        ensures
            post.wf(),
    {
        assert forall|r1: int, c1: int, r2: int, c2: int|
            post.in_bounds(r1, c1) && post.in_bounds(r2, c2)
            implies (#[trigger] post.node_pool.adjacent(
                post.id_at(r1, c1), post.id_at(r2, c2))
                == post.orthogonal(r1, c1, r2, c2)) by {
            assert(pre.node_pool.adjacent(pre.id_at(r1, c1), pre.id_at(r2, c2))
                == pre.orthogonal(r1, c1, r2, c2));
            assert(pre.id_at(r1, c1) == post.id_at(r1, c1));
            assert(pre.id_at(r2, c2) == post.id_at(r2, c2));
        }
        assert forall|r: int, c: int| post.in_bounds(r, c)
            implies (#[trigger] post.cell_at(r, c)) == pre.cell_at(r, c) by {
            pre.lemma_idx_bound(r, c);
        }
        assert(post.dims_ok());
        assert(post.cells_ok());
    }

    /// Binary tree: for each cell, look only at its northern and eastern
    /// neighbors; link to the only one that exists, or to one chosen by the
    /// configured chance when both do. Afterwards every cell but the
    /// top-right corner has a passage north or east.
    pub fn binary_tree(
        &mut self,
        settings: &BinaryTreeSettings,
        rng: &mut rand::rngs::ThreadRng,
    )
        requires
            old(self).wf(),
            settings.wf(),
        ensures
            final(self).wf(),
            final(self).width == old(self).width,
            final(self).height == old(self).height,
            final(self).node_grid == old(self).node_grid,
            old(self).node_pool.links_extended(final(self).node_pool),
            forall|r: int, c: int|
                final(self).in_bounds(r, c) && (r > 0 || c < final(self).width - 1)
                ==> #[trigger] final(self).linked_upward(r, c),
            final(self).node_pool.link_connected(),
    {
        let n = self.node_pool.nodes.len();
        let mut i: usize = 0;
        while i < n
            invariant
                n == self.node_pool.nodes@.len(),
                self.wf(),
                settings.wf(),
                self.width == old(self).width,
                self.height == old(self).height,
                self.node_grid == old(self).node_grid,
                old(self).node_pool.links_extended(self.node_pool),
                i <= n,
                forall|r: int, c: int|
                    self.in_bounds(r, c) && r * self.width + c < i
                    && (r > 0 || c < self.width - 1)
                    ==> #[trigger] self.linked_upward(r, c),
            decreases n - i,
        {
            let ghost pre = *self;
            let cell_id = NodeId(i);
            let (row, col) = self.get_position_by_id(cell_id);
            proof {
                self.lemma_idx_bound(row as int, col as int);
                assert(row * self.width + col == i);
            }
            proof {
                assert(self.cell_at(row as int, col as int)
                    == self.node_pool.nodes@[i as int].payload);
            }
            let cell_north = self.get_by_id(cell_id).north;
            let cell_east = self.get_by_id(cell_id).east;
            let target: Option<NodeId> = match (cell_north, cell_east) {
                (None, None) => None,
                (Some(nb), None) => Some(nb),
                (None, Some(nb)) => Some(nb),
                (Some(nb_north), Some(nb_east)) => {
                    let chance = settings.get_probability(row, col);
                    let coin = rand_index(rng, settings.denominator as usize);
                    if coin < chance as usize {
                        Some(nb_north)
                    } else {
                        Some(nb_east)
                    }
                },
            };
            if let Some(neighbor) = target {
                proof {
                    if row > 0 && neighbor == self.id_at(row as int - 1, col as int) {
                        assert(self.orthogonal(row as int, col as int, row as int - 1, col as int));
                    } else {
                        assert(col < self.width - 1
                            && neighbor == self.id_at(row as int, col as int + 1));
                        assert(self.orthogonal(row as int, col as int, row as int, col as int + 1));
                    }
                    assert(self.node_pool.adjacent(cell_id, neighbor));
                    assert(self.node_pool.adjacent(neighbor, cell_id));
                }
                self.node_pool.link_cells(cell_id, neighbor, true);
                proof {
                    assert(pre.node_pool.links_extended(self.node_pool));
                    FlatSquareGrid::lemma_wf_after_link_growth(pre, *self);
                    old(self).node_pool.lemma_links_extended_trans(
                        pre.node_pool, self.node_pool);
                }
            }
            proof {
                assert forall|r: int, c: int|
                    self.in_bounds(r, c) && r * self.width + c < i + 1
                    && (r > 0 || c < self.width - 1)
                    implies #[trigger] self.linked_upward(r, c) by {
                    if r * self.width + c < i {
                        assert(pre.linked_upward(r, c));
                        assert(pre.id_at(r, c) == self.id_at(r, c));
                        assert(pre.id_at(r - 1, c) == self.id_at(r - 1, c));
                        assert(pre.id_at(r, c + 1) == self.id_at(r, c + 1));
                    } else {
                        self.lemma_idx_unique(r, c, row as int, col as int);
                        assert(r == row && c == col);
                        assert(self.cell_at(r, c).north == pre.cell_at(r, c).north);
                    }
                }
            }
            i += 1;
        }
        proof {
            assert forall|r: int, c: int|
                self.in_bounds(r, c) && (r > 0 || c < self.width - 1)
                implies #[trigger] self.linked_upward(r, c) by {
                self.lemma_idx_bound(r, c);
            }
            assert forall|a: NodeId, b: NodeId|
                self.node_pool.valid(a) && self.node_pool.valid(b)
                implies #[trigger] self.node_pool.link_reach(a, b) by {
                self.lemma_wf_position(a);
                self.lemma_wf_position(b);
                let ra = self.node_pool.nodes@[a.0 as int].payload.row as int;
                let ca = self.node_pool.nodes@[a.0 as int].payload.col as int;
                let rb = self.node_pool.nodes@[b.0 as int].payload.row as int;
                let cb = self.node_pool.nodes@[b.0 as int].payload.col as int;
                self.lemma_upward_reaches_corner(ra, ca);
                self.lemma_upward_reaches_corner(rb, cb);
                self.node_pool.lemma_link_reach_trans(
                    a, self.id_at(0, self.width - 1), b);
            }
        }
    }

    /// Some cell of the top row can be reached from `(r, c)` through
    /// passages, and back.
    pub open spec fn reaches_top(self, r: int, c: int) -> bool {
        exists|c0: int|
            0 <= c0 < self.width
            && #[trigger] self.node_pool.link_reach(self.id_at(r, c), self.id_at(0, c0))
            && self.node_pool.link_reach(self.id_at(0, c0), self.id_at(r, c))
    }

    /// Reaching the top row survives carving more passages.
    proof fn lemma_reaches_top_mono(pre: FlatSquareGrid, post: FlatSquareGrid, r: int, c: int)
        requires
            pre.reaches_top(r, c),
            post.width == pre.width,
            post.node_pool.nodes@.len() == pre.node_pool.nodes@.len(),
            forall|x: NodeId, y: NodeId| #[trigger] pre.node_pool.linked(x, y)
                ==> post.node_pool.linked(x, y),
        ensures
            post.reaches_top(r, c),
    {
        let c0 = choose|c0: int|
            0 <= c0 < pre.width
            && #[trigger] pre.node_pool.link_reach(pre.id_at(r, c), pre.id_at(0, c0))
            && pre.node_pool.link_reach(pre.id_at(0, c0), pre.id_at(r, c));
        pre.node_pool.lemma_link_reach_mono(post.node_pool, pre.id_at(r, c), pre.id_at(0, c0));
        pre.node_pool.lemma_link_reach_mono(post.node_pool, pre.id_at(0, c0), pre.id_at(r, c));
        assert(post.node_pool.link_reach(post.id_at(r, c), post.id_at(0, c0)));
        assert(post.node_pool.link_reach(post.id_at(0, c0), post.id_at(r, c)));
    }

    /// A row segment whose consecutive cells all share passages can be
    /// walked from either end to the other.
    proof fn lemma_row_chain(self, row: int, c1: int, c2: int)
        requires
            self.wf(),
            self.in_bounds(row, c1),
            self.in_bounds(row, c2),
            c1 <= c2,
            forall|j: int| c1 <= j < c2
                ==> self.node_pool.linked(#[trigger] self.id_at(row, j), self.id_at(row, j + 1))
                    && self.node_pool.linked(self.id_at(row, j + 1), self.id_at(row, j)),
        ensures
            self.node_pool.link_reach(self.id_at(row, c1), self.id_at(row, c2)),
            self.node_pool.link_reach(self.id_at(row, c2), self.id_at(row, c1)),
        decreases c2 - c1,
    {
        self.lemma_idx_bound(row, c1);
        self.lemma_idx_bound(row, c2);
        if c1 == c2 {
            self.node_pool.lemma_link_reach_refl(self.id_at(row, c1));
        } else {
            self.lemma_row_chain(row, c1 + 1, c2);
            let a = self.id_at(row, c1);
            let b = self.id_at(row, c1 + 1);
            self.lemma_idx_bound(row, c1 + 1);
            assert(self.node_pool.linked(a, b) && self.node_pool.linked(b, a));
            assert(self.node_pool.link_steps(a, a, 0));
            assert(self.node_pool.link_steps(a, b, 1));
            assert(self.node_pool.link_steps(b, b, 0));
            assert(self.node_pool.link_steps(b, a, 1));
            self.node_pool.lemma_link_reach_trans(a, b, self.id_at(row, c2));
            self.node_pool.lemma_link_reach_trans(self.id_at(row, c2), b, a);
        }
    }

    /// Every cell of a horizontally linked run reaches the top row through
    /// the run's door into the row above.
    proof fn lemma_run_reaches_top(self, rr: int, run_start: int, run_end: int, dc: int)
        requires
            self.wf(),
            1 <= rr < self.height,
            0 <= run_start <= dc < run_end <= self.width,
            forall|j: int| run_start <= j < run_end - 1
                ==> self.node_pool.linked(#[trigger] self.id_at(rr, j), self.id_at(rr, j + 1))
                    && self.node_pool.linked(self.id_at(rr, j + 1), self.id_at(rr, j)),
            self.node_pool.linked(self.id_at(rr, dc), self.id_at(rr - 1, dc)),
            self.node_pool.linked(self.id_at(rr - 1, dc), self.id_at(rr, dc)),
            self.reaches_top(rr - 1, dc),
        ensures
            forall|c2: int| run_start <= c2 < run_end
                ==> #[trigger] self.reaches_top(rr, c2),
    {
        let up = self.id_at(rr - 1, dc);
        let door = self.id_at(rr, dc);
        self.lemma_idx_bound(rr, dc);
        self.lemma_idx_bound(rr - 1, dc);
        assert(self.node_pool.link_steps(door, door, 0));
        assert(self.node_pool.link_steps(door, up, 1));
        assert(self.node_pool.link_steps(up, up, 0));
        assert(self.node_pool.link_steps(up, door, 1));
        let c0 = choose|c0: int|
            0 <= c0 < self.width
            && #[trigger] self.node_pool.link_reach(self.id_at(rr - 1, dc), self.id_at(0, c0))
            && self.node_pool.link_reach(self.id_at(0, c0), self.id_at(rr - 1, dc));
        assert forall|c2: int| run_start <= c2 < run_end
            implies #[trigger] self.reaches_top(rr, c2) by {
            self.lemma_idx_bound(rr, c2);
            if c2 <= dc {
                self.lemma_row_chain(rr, c2, dc);
            } else {
                self.lemma_row_chain(rr, dc, c2);
            }
            let cell = self.id_at(rr, c2);
            self.node_pool.lemma_link_reach_trans(cell, door, up);
            self.node_pool.lemma_link_reach_trans(up, door, cell);
            self.node_pool.lemma_link_reach_trans(cell, up, self.id_at(0, c0));
            self.node_pool.lemma_link_reach_trans(self.id_at(0, c0), up, cell);
        }
    }

    /// Sidewinder: scans each row grouping cells into runs by coin flips,
    /// links each run horizontally, and links one random cell of the run to
    /// the row above; the first row becomes one long corridor. The carved
    /// passages connect every cell to every other.
    #[verifier::rlimit(100)]
    pub fn sidewinder(&mut self, rng: &mut rand::rngs::ThreadRng)
        requires
            old(self).wf(),
            old(self).width >= 1,
            old(self).height >= 1,
        ensures
            final(self).wf(),
            final(self).width == old(self).width,
            final(self).height == old(self).height,
            final(self).node_grid == old(self).node_grid,
            old(self).node_pool.links_extended(final(self).node_pool),
            final(self).node_pool.link_connected(),
            forall|j: int| 0 <= j < final(self).width - 1
                ==> final(self).node_pool.linked(
                        #[trigger] final(self).id_at(0, j), final(self).id_at(0, j + 1))
                    && final(self).node_pool.linked(
                        final(self).id_at(0, j + 1), final(self).id_at(0, j)),
    {
        let width = self.width;
        let height = self.height;
        let mut row: usize = 1;
        while row < height
            invariant
                self.wf(),
                width == self.width,
                height == self.height,
                width >= 1,
                self.width == old(self).width,
                self.height == old(self).height,
                self.node_grid == old(self).node_grid,
                old(self).node_pool.links_extended(self.node_pool),
                1 <= row,
                forall|r2: int, c2: int| 1 <= r2 < row && 0 <= c2 < width
                    ==> #[trigger] self.reaches_top(r2, c2),
            decreases height - row,
        {
            let mut hallway_start: usize = 0;
            while hallway_start < width - 1
                invariant
                    self.wf(),
                    width == self.width,
                    height == self.height,
                    width >= 1,
                    self.width == old(self).width,
                    self.height == old(self).height,
                    self.node_grid == old(self).node_grid,
                    old(self).node_pool.links_extended(self.node_pool),
                    1 <= row < height,
                    hallway_start <= width,
                    forall|r2: int, c2: int| 1 <= r2 < row && 0 <= c2 < width
                        ==> #[trigger] self.reaches_top(r2, c2),
                    forall|c2: int| 0 <= c2 < hallway_start
                        ==> #[trigger] self.reaches_top(row as int, c2),
                decreases width - hallway_start,
            {
                let taken = Self::take_out_of(width - hallway_start, rng);
                let mut dcol: usize = 0;
                while dcol < taken - 1
                    invariant
                        self.wf(),
                        width == self.width,
                        height == self.height,
                        self.width == old(self).width,
                        self.height == old(self).height,
                        self.node_grid == old(self).node_grid,
                        old(self).node_pool.links_extended(self.node_pool),
                        1 <= row < height,
                        hallway_start < width,
                        1 <= taken <= width - hallway_start,
                        dcol <= taken,
                        forall|r2: int, c2: int| 1 <= r2 < row && 0 <= c2 < width
                            ==> #[trigger] self.reaches_top(r2, c2),
                        forall|c2: int| 0 <= c2 < hallway_start
                            ==> #[trigger] self.reaches_top(row as int, c2),
                        forall|j: int|
                            hallway_start <= j < hallway_start + dcol
                            ==> self.node_pool.linked(
                                    #[trigger] self.id_at(row as int, j),
                                    self.id_at(row as int, j + 1))
                                && self.node_pool.linked(
                                    self.id_at(row as int, j + 1),
                                    self.id_at(row as int, j)),
                    decreases taken - dcol,
                {
                    let ghost pre = *self;
                    proof {
                        assert(self.orthogonal(
                            row as int,
                            (hallway_start + dcol) as int,
                            row as int,
                            (hallway_start + dcol + 1) as int,
                        ));
                    }
                    self.link_cells_at(
                        (row, hallway_start + dcol),
                        (row, hallway_start + dcol + 1),
                    );
                    proof {
                        old(self).node_pool.lemma_links_extended_trans(
                            pre.node_pool, self.node_pool);
                        assert forall|r2: int, c2: int| 1 <= r2 < row && 0 <= c2 < width
                            implies #[trigger] self.reaches_top(r2, c2) by {
                            FlatSquareGrid::lemma_reaches_top_mono(pre, *self, r2, c2);
                        }
                        assert forall|c2: int| 0 <= c2 < hallway_start
                            implies #[trigger] self.reaches_top(row as int, c2) by {
                            FlatSquareGrid::lemma_reaches_top_mono(pre, *self, row as int, c2);
                        }
                        assert forall|j: int|
                            hallway_start <= j < hallway_start + dcol + 1
                            implies self.node_pool.linked(
                                    #[trigger] self.id_at(row as int, j),
                                    self.id_at(row as int, j + 1))
                                && self.node_pool.linked(
                                    self.id_at(row as int, j + 1),
                                    self.id_at(row as int, j)) by {
                            if j < hallway_start + dcol {
                                assert(pre.node_pool.linked(
                                    pre.id_at(row as int, j), pre.id_at(row as int, j + 1)));
                                assert(pre.node_pool.linked(
                                    pre.id_at(row as int, j + 1), pre.id_at(row as int, j)));
                            }
                        }
                    }
                    dcol += 1;
                }
                let hallway_door = rand_index(rng, taken);
                let door_col = hallway_start + hallway_door;
                if row != 0 {
                    let ghost pre = *self;
                    proof {
                        assert(self.orthogonal(
                            row as int,
                            door_col as int,
                            row as int - 1,
                            door_col as int,
                        ));
                    }
                    self.link_cells_at((row, door_col), (row - 1, door_col));
                    proof {
                        old(self).node_pool.lemma_links_extended_trans(
                            pre.node_pool, self.node_pool);
                        assert forall|r2: int, c2: int| 1 <= r2 < row && 0 <= c2 < width
                            implies #[trigger] self.reaches_top(r2, c2) by {
                            FlatSquareGrid::lemma_reaches_top_mono(pre, *self, r2, c2);
                        }
                        assert forall|c2: int| 0 <= c2 < hallway_start
                            implies #[trigger] self.reaches_top(row as int, c2) by {
                            FlatSquareGrid::lemma_reaches_top_mono(pre, *self, row as int, c2);
                        }
                        let rr = row as int;
                        let dc = door_col as int;
                        assert forall|j: int|
                            hallway_start <= j < hallway_start + taken - 1
                            implies self.node_pool.linked(
                                    #[trigger] self.id_at(rr, j), self.id_at(rr, j + 1))
                                && self.node_pool.linked(
                                    self.id_at(rr, j + 1), self.id_at(rr, j)) by {
                            assert(pre.node_pool.linked(
                                pre.id_at(rr, j), pre.id_at(rr, j + 1)));
                            assert(pre.node_pool.linked(
                                pre.id_at(rr, j + 1), pre.id_at(rr, j)));
                        }
                        assert(self.reaches_top(rr - 1, dc)) by {
                            if rr - 1 == 0 {
                                self.lemma_idx_bound(0, dc);
                                self.node_pool.lemma_link_reach_refl(self.id_at(0, dc));
                            }
                        }
                        self.lemma_run_reaches_top(
                            rr,
                            hallway_start as int,
                            (hallway_start + taken) as int,
                            dc,
                        );
                    }
                }
                hallway_start += taken;
            }
            proof {
                if hallway_start == width {
                    assert forall|c2: int| 0 <= c2 < width
                        implies #[trigger] self.reaches_top(row as int, c2) by {}
                }
            }
            if hallway_start == width - 1 && width >= 1 {
                let ghost pre = *self;
                proof {
                    assert(self.orthogonal(
                        row as int,
                        width as int - 1,
                        row as int - 1,
                        width as int - 1,
                    ));
                }
                self.link_cells_at((row, width - 1), (row - 1, width - 1));
                proof {
                    old(self).node_pool.lemma_links_extended_trans(
                        pre.node_pool, self.node_pool);
                    assert forall|r2: int, c2: int| 1 <= r2 < row && 0 <= c2 < width
                        implies #[trigger] self.reaches_top(r2, c2) by {
                        FlatSquareGrid::lemma_reaches_top_mono(pre, *self, r2, c2);
                    }
                    assert forall|c2: int| 0 <= c2 < width - 1
                        implies #[trigger] self.reaches_top(row as int, c2) by {
                        FlatSquareGrid::lemma_reaches_top_mono(pre, *self, row as int, c2);
                    }
                    let rr = row as int;
                    let dc = width as int - 1;
                    assert(self.reaches_top(rr - 1, dc)) by {
                        if rr - 1 == 0 {
                            self.lemma_idx_bound(0, dc);
                            self.node_pool.lemma_link_reach_refl(self.id_at(0, dc));
                        }
                    }
                    self.lemma_run_reaches_top(rr, dc, dc + 1, dc);
                }
            }
            row += 1;
        }
        let mut col: usize = 0;
        while col < width - 1
            invariant
                self.wf(),
                width == self.width,
                height == self.height,
                self.width == old(self).width,
                self.height == old(self).height,
                self.node_grid == old(self).node_grid,
                old(self).node_pool.links_extended(self.node_pool),
                height >= 1,
                width >= 1,
                col <= width,
                forall|r2: int, c2: int| 1 <= r2 < height && 0 <= c2 < width
                    ==> #[trigger] self.reaches_top(r2, c2),
                forall|j: int| 0 <= j < col
                    ==> self.node_pool.linked(
                            #[trigger] self.id_at(0, j), self.id_at(0, j + 1))
                        && self.node_pool.linked(self.id_at(0, j + 1), self.id_at(0, j)),
            decreases width - col,
        {
            let ghost pre = *self;
            proof {
                assert(self.orthogonal(0, col as int, 0, col as int + 1));
            }
            self.link_cells_at((0, col), (0, col + 1));
            proof {
                old(self).node_pool.lemma_links_extended_trans(pre.node_pool, self.node_pool);
                assert forall|r2: int, c2: int| 1 <= r2 < height && 0 <= c2 < width
                    implies #[trigger] self.reaches_top(r2, c2) by {
                    FlatSquareGrid::lemma_reaches_top_mono(pre, *self, r2, c2);
                }
                assert forall|j: int| 0 <= j < col + 1
                    implies self.node_pool.linked(
                            #[trigger] self.id_at(0, j), self.id_at(0, j + 1))
                        && self.node_pool.linked(self.id_at(0, j + 1), self.id_at(0, j)) by {
                    if j < col {
                        assert(pre.node_pool.linked(pre.id_at(0, j), pre.id_at(0, j + 1)));
                        assert(pre.node_pool.linked(pre.id_at(0, j + 1), pre.id_at(0, j)));
                    }
                }
            }
            col += 1;
        }
        proof {
            assert forall|a: NodeId, b: NodeId|
                self.node_pool.valid(a) && self.node_pool.valid(b)
                implies #[trigger] self.node_pool.link_reach(a, b) by {
                self.lemma_reach_origin_after_sidewinder(a);
                self.lemma_reach_origin_after_sidewinder(b);
                self.node_pool.lemma_link_reach_trans(a, self.id_at(0, 0), b);
            }
        }
    }

    /// After the sidewinder pass, every cell reaches the top-left corner:
    /// the top row is one corridor, and every lower cell reaches some top
    /// cell.
    proof fn lemma_reach_origin_after_sidewinder(self, a: NodeId)
        requires
            self.wf(),
            self.width >= 1,
            self.height >= 1,
            self.node_pool.valid(a),
            forall|r2: int, c2: int| 1 <= r2 < self.height && 0 <= c2 < self.width
                ==> #[trigger] self.reaches_top(r2, c2),
            forall|j: int| 0 <= j < self.width - 1
                ==> self.node_pool.linked(#[trigger] self.id_at(0, j), self.id_at(0, j + 1))
                    && self.node_pool.linked(self.id_at(0, j + 1), self.id_at(0, j)),
        ensures
            self.node_pool.link_reach(a, self.id_at(0, 0)),
            self.node_pool.link_reach(self.id_at(0, 0), a),
    {
        self.lemma_wf_position(a);
        let ra = self.node_pool.nodes@[a.0 as int].payload.row as int;
        let ca = self.node_pool.nodes@[a.0 as int].payload.col as int;
        if ra == 0 {
            self.lemma_row_chain(0, 0, ca);
        } else {
            assert(self.reaches_top(ra, ca));
            let c0 = choose|c0: int|
                0 <= c0 < self.width
                && #[trigger] self.node_pool.link_reach(self.id_at(ra, ca), self.id_at(0, c0))
                && self.node_pool.link_reach(self.id_at(0, c0), self.id_at(ra, ca));
            self.lemma_row_chain(0, 0, c0);
            self.node_pool.lemma_link_reach_trans(a, self.id_at(0, c0), self.id_at(0, 0));
            self.node_pool.lemma_link_reach_trans(self.id_at(0, 0), self.id_at(0, c0), a);
        }
    }

    /// Draws a run length: at least one, growing while a coin keeps landing
    /// true, never more than `max`.
    fn take_out_of(max: usize, rng: &mut rand::rngs::ThreadRng) -> (r: usize)
        requires
            max > 0,
        ensures
            1 <= r <= max,
    {
        let mut taken: usize = 1;
        let mut continue_run = rand_bool(rng);
        while continue_run && taken < max
            invariant
                1 <= taken <= max,
            decreases max - taken,
        {
            taken += 1;
            continue_run = rand_bool(rng);
        }
        taken
    }

    /// Aldous-Broder on this grid's pool.
    pub fn aldous_broder(&mut self, rng: &mut rand::rngs::ThreadRng) -> (complete: bool)
        requires
            old(self).wf(),
            old(self).untouched(),
            old(self).node_pool.nodes@.len() > 0,
        ensures
            final(self).wf(),
            final(self).width == old(self).width,
            final(self).height == old(self).height,
            final(self).node_grid == old(self).node_grid,
            old(self).node_pool.links_extended(final(self).node_pool),
            complete ==> final(self).node_pool.link_connected(),
            old(self).node_pool.nodes@.len() == 1 ==> complete,
            complete ==> links_total(
                final(self).node_pool.nodes@,
                old(self).node_pool.nodes@.len() as int,
            ) == 2 * (old(self).node_pool.nodes@.len() - 1),
    {
        let ghost pre = *self;
        proof {
            self.lemma_adjacency_shape();
        }
        let complete = self.node_pool.aldous_broder(rng);
        proof {
            FlatSquareGrid::lemma_wf_after_link_growth(pre, *self);
        }
        complete
    }

    /// Hunt-and-Kill on this grid's pool.
    pub fn hunt_and_kill(&mut self, rng: &mut rand::rngs::ThreadRng)
        requires
            old(self).wf(),
        ensures
            final(self).wf(),
            final(self).width == old(self).width,
            final(self).height == old(self).height,
            final(self).node_grid == old(self).node_grid,
            old(self).node_pool.links_extended(final(self).node_pool),
            old(self).untouched() ==> final(self).node_pool.link_connected(),
            old(self).untouched() && old(self).node_pool.nodes@.len() > 0
                ==> links_total(
                    final(self).node_pool.nodes@,
                    old(self).node_pool.nodes@.len() as int,
                ) == 2 * (old(self).node_pool.nodes@.len() - 1),
    {
        let ghost pre = *self;
        proof {
            self.lemma_adjacency_shape();
            self.lemma_grid_connected();
        }
        self.node_pool.hunt_and_kill(rng);
        proof {
            FlatSquareGrid::lemma_wf_after_link_growth(pre, *self);
        }
    }

    /// Recursive backtracker: a depth-first carve with an explicit stack,
    /// linking into a uniformly chosen unvisited neighbor until stuck, then
    /// backtracking.
    #[verifier::rlimit(60)]
    pub fn recursive_backtracker(&mut self, rng: &mut rand::rngs::ThreadRng)
        requires
            old(self).wf(),
        ensures
            final(self).wf(),
            final(self).width == old(self).width,
            final(self).height == old(self).height,
            final(self).node_grid == old(self).node_grid,
            old(self).node_pool.links_extended(final(self).node_pool),
            final(self).node_pool.link_connected(),
            old(self).untouched() && old(self).node_pool.nodes@.len() > 0
                ==> links_total(
                    final(self).node_pool.nodes@,
                    old(self).node_pool.nodes@.len() as int,
                ) == 2 * (old(self).node_pool.nodes@.len() - 1),
    {
        let n = self.node_pool.nodes.len();
        if n == 0 {
            return;
        }
        let ghost fresh = old(self).untouched();
        proof {
            self.lemma_adjacency_shape();
            self.lemma_grid_connected();
            if fresh {
                lemma_links_total_empty(self.node_pool.nodes@, n as int);
            }
        }
        let start = self.node_pool.get_arbitrary_node_id();
        let mut visited: Vec<bool> = Vec::new();
        let mut c: usize = 0;
        while c < n
            invariant
                c <= n,
                visited@.len() == c,
                forall|j: int| 0 <= j < c ==> !(#[trigger] visited@[j]),
            decreases n - c,
        {
            visited.push(false);
            c += 1;
        }
        proof {
            lemma_marked_of_clear(visited@, n as int);
        }
        let ghost v_init = visited@;
        visited[start.0] = true;
        proof {
            lemma_marked_set(v_init, visited@, start.0 as int, n as int);
            lemma_marked_le(visited@, n as int);
            self.node_pool.lemma_link_reach_refl(start);
        }
        let mut stack: Vec<NodeId> = Vec::new();
        stack.push(start);
        proof {
            assert(stack@.contains(start)) by {
                assert(stack@[0] == start);
            }
        }
        while stack.len() > 0
            invariant
                n == self.node_pool.nodes@.len(),
                self.wf(),
                self.width == old(self).width,
                self.height == old(self).height,
                self.node_grid == old(self).node_grid,
                old(self).node_pool.links_extended(self.node_pool),
                self.node_pool.adj_symmetric(),
                visited@.len() == n,
                0 <= marked_to(visited@, n as int) <= n,
                forall|k: int| 0 <= k < stack@.len()
                    ==> (#[trigger] stack@[k]).0 < n,
                start.0 < n,
                visited@[start.0 as int],
                forall|k: int| 0 <= k < stack@.len()
                    ==> visited@[(#[trigger] stack@[k]).0 as int],
                forall|i: int| 0 <= i < n && #[trigger] visited@[i]
                    ==> self.node_pool.link_reach(start, NodeId(i as usize))
                        && self.node_pool.link_reach(NodeId(i as usize), start),
                forall|v: NodeId, y: NodeId|
                    v.0 < n && visited@[v.0 as int] && !stack@.contains(v)
                    && #[trigger] self.node_pool.adjacent(v, y)
                    ==> visited@[y.0 as int],
                fresh == old(self).untouched(),
                fresh ==> forall|i: int| 0 <= i < n && !visited@[i]
                    ==> (#[trigger] self.node_pool.nodes@[i]).links@.len() == 0,
                fresh ==> forall|a: NodeId, b: NodeId|
                    #[trigger] self.node_pool.linked(a, b) ==> self.node_pool.linked(b, a),
                fresh ==> links_total(self.node_pool.nodes@, n as int)
                    == 2 * (marked_to(visited@, n as int) - 1),
            ensures
                n == self.node_pool.nodes@.len(),
                self.wf(),
                self.width == old(self).width,
                self.height == old(self).height,
                self.node_grid == old(self).node_grid,
                old(self).node_pool.links_extended(self.node_pool),
                visited@.len() == n,
                start.0 < n,
                forall|i: int| 0 <= i < n && #[trigger] visited@[i]
                    ==> self.node_pool.link_reach(start, NodeId(i as usize))
                        && self.node_pool.link_reach(NodeId(i as usize), start),
                forall|v: NodeId, y: NodeId|
                    v.0 < n && visited@[v.0 as int]
                    && #[trigger] self.node_pool.adjacent(v, y)
                    ==> visited@[y.0 as int],
                visited@[start.0 as int],
                fresh ==> links_total(self.node_pool.nodes@, n as int)
                    == 2 * (marked_to(visited@, n as int) - 1),
            decreases n - marked_to(visited@, n as int), stack@.len(),
        {
            let top_of_stack = stack[stack.len() - 1];
            let viable_cells = self.node_pool.unvisited_neighborhood_of(&visited, top_of_stack);
            if viable_cells.len() == 0 {
                let ghost stack0 = stack@;
                stack.pop();
                proof {
                    assert forall|v: NodeId, y: NodeId|
                        v.0 < n && visited@[v.0 as int] && !stack@.contains(v)
                        && #[trigger] self.node_pool.adjacent(v, y)
                        implies visited@[y.0 as int] by {
                        if stack0.contains(v) {
                            let q = choose|q: int| 0 <= q < stack0.len() && stack0[q] == v;
                            if q < stack0.len() - 1 {
                                assert(stack@[q] == v);
                            } else {
                                assert(v == top_of_stack);
                                if !visited@[y.0 as int] {
                                    assert(viable_cells@.contains(y));
                                    assert(viable_cells@.len() > 0);
                                }
                            }
                        }
                    }
                }
            } else {
                let ghost pre = *self;
                let next_cell = *sample_uniform(viable_cells.as_slice(), rng);
                proof {
                    let q = choose|q: int|
                        0 <= q < viable_cells@.len() && next_cell == viable_cells@[q];
                    assert(viable_cells@.contains(next_cell));
                    assert(self.node_pool.adjacent(top_of_stack, next_cell));
                    assert(self.node_pool.adjacent(next_cell, top_of_stack));
                    assert(self.node_pool.node_ok(top_of_stack.0 as int));
                    let a = choose|a: int|
                        0 <= a < self.node_pool.nodes@[
                            top_of_stack.0 as int].adjacencies@.len()
                        && (#[trigger] self.node_pool.nodes@[
                            top_of_stack.0 as int].adjacencies@[a]) == next_cell;
                    assert(next_cell.0 < n);
                }
                self.node_pool.link_cells(top_of_stack, next_cell, true);
                proof {
                    FlatSquareGrid::lemma_wf_after_link_growth(pre, *self);
                    old(self).node_pool.lemma_links_extended_trans(
                        pre.node_pool, self.node_pool);
                    assert forall|a: NodeId, b: NodeId|
                        #[trigger] self.node_pool.adjacent(a, b)
                        implies self.node_pool.adjacent(b, a) by {
                        assert(pre.node_pool.adjacent(a, b));
                        assert(pre.node_pool.adjacent(b, a));
                    }
                    if fresh {
                        assert(!pre.node_pool.linked(next_cell, top_of_stack));
                        assert(!pre.node_pool.linked(top_of_stack, next_cell)) by {
                            if pre.node_pool.linked(top_of_stack, next_cell) {
                                assert(pre.node_pool.linked(next_cell, top_of_stack));
                            }
                        }
                        lemma_links_total_update2(
                            pre.node_pool.nodes@,
                            self.node_pool.nodes@,
                            top_of_stack.0 as int,
                            next_cell.0 as int,
                            n as int,
                        );
                        assert forall|a: NodeId, b: NodeId|
                            #[trigger] self.node_pool.linked(a, b)
                            implies self.node_pool.linked(b, a) by {
                            if pre.node_pool.linked(a, b) {
                                assert(pre.node_pool.linked(b, a));
                            }
                        }
                    }
                }
                let ghost stack0 = stack@;
                stack.push(next_cell);
                let ghost v0 = visited@;
                visited[next_cell.0] = true;
                proof {
                    lemma_marked_set(v0, visited@, next_cell.0 as int, n as int);
                    lemma_marked_le(visited@, n as int);
                    lemma_reach_after_joining(
                        pre.node_pool,
                        self.node_pool,
                        v0,
                        start,
                        top_of_stack,
                        next_cell,
                        n as int,
                    );
                    assert forall|v: NodeId, y: NodeId|
                        v.0 < n && visited@[v.0 as int] && !stack@.contains(v)
                        && #[trigger] self.node_pool.adjacent(v, y)
                        implies visited@[y.0 as int] by {
                        assert(v != next_cell) by {
                            assert(stack@[stack@.len() - 1] == next_cell);
                        }
                        assert(!stack0.contains(v)) by {
                            if stack0.contains(v) {
                                let q = choose|q: int|
                                    0 <= q < stack0.len() && stack0[q] == v;
                                assert(stack@[q] == v);
                            }
                        }
                        assert(pre.node_pool.adjacent(v, y));
                        assert(v0[y.0 as int]);
                    }
                }
            }
        }
        proof {
            if old(self).node_pool.adj_connected() {
                assert forall|i: int| 0 <= i < n implies visited@[i] by {
                    if !visited@[i] {
                        let target = NodeId(i as usize);
                        assert(old(self).node_pool.adj_reach(start, target));
                        let m = choose|m: nat|
                            #[trigger] old(self).node_pool.adj_steps(start, target, m);
                        lemma_boundary_edge(
                            old(self).node_pool, visited@, start, target, m);
                        let edge = choose|x: NodeId, y: NodeId|
                            x.0 < old(self).node_pool.nodes@.len()
                            && y.0 < old(self).node_pool.nodes@.len()
                            && visited@[x.0 as int] && !visited@[y.0 as int]
                            && #[trigger] old(self).node_pool.adj_touches(x, y);
                        let x = edge.0;
                        let y = edge.1;
                        assert(self.node_pool.nodes@[x.0 as int].adjacencies@
                            == old(self).node_pool.nodes@[x.0 as int].adjacencies@);
                        assert(self.node_pool.nodes@[y.0 as int].adjacencies@
                            == old(self).node_pool.nodes@[y.0 as int].adjacencies@);
                        assert(self.node_pool.adjacent(x, y) || self.node_pool.adjacent(y, x));
                        self.lemma_adjacency_shape();
                        assert(self.node_pool.adjacent(x, y));
                        assert(visited@[y.0 as int]);
                        assert(false);
                    }
                }
                assert forall|a: NodeId, b: NodeId|
                    self.node_pool.valid(a) && self.node_pool.valid(b)
                    implies #[trigger] self.node_pool.link_reach(a, b) by {
                    assert(visited@[a.0 as int]);
                    assert(visited@[b.0 as int]);
                    assert(NodeId(a.0 as int as usize) == a);
                    assert(NodeId(b.0 as int as usize) == b);
                    self.node_pool.lemma_link_reach_trans(a, start, b);
                }
                if fresh {
                    lemma_marked_full(visited@, n as int);
                }
            }
        }
    }
}

impl FlatSquareGrid {
    /// Renders the maze as ASCII art: a border of `+---+` segments, walls
    /// drawn where neighbors are not linked. The text is
    /// `(4 * width + 2) * (2 * height + 1)` characters long.
    pub fn text_print(&self) -> (r: String)
        requires
            self.wf(),
        ensures
            r@.len() == (4 * self.width + 2) * (2 * self.height + 1),
    {
        proof {
            reveal_strlit("+");
            reveal_strlit("---+");
            reveal_strlit("\n");
            reveal_strlit("|");
            reveal_strlit("   ");
            reveal_strlit(" ");
            reveal_strlit("---");
        }
        let mut result = String::new();
        result.append("+");
        let mut c: usize = 0;
        while c < self.width
            invariant
                c <= self.width,
                result@.len() == 1 + 4 * c,
            decreases self.width - c,
        {
            proof {
                reveal_strlit("---+");
            }
            result.append("---+");
            c += 1;
        }
        proof {
            reveal_strlit("\n");
        }
        result.append("\n");
        proof {
            assert(result@.len() == (4 * self.width + 2) * (1 + 2 * 0)) by (nonlinear_arith)
                requires
                    result@.len() == 4 * self.width + 2,
            {}
        }

        let mut row: usize = 0;
        while row < self.height
            invariant
                self.wf(),
                row <= self.height,
                result@.len() == (4 * self.width + 2) * (1 + 2 * row),
            decreases self.height - row,
        {
            proof {
                reveal_strlit("|");
                reveal_strlit("   ");
                reveal_strlit(" ");
                reveal_strlit("---");
                reveal_strlit("+");
                reveal_strlit("\n");
            }
            let ghost row_start = result@.len();
            result.append("|");
            let mut col: usize = 0;
            while col < self.width
                invariant
                    self.wf(),
                    row < self.height,
                    col <= self.width,
                    result@.len() == row_start + 1 + 4 * col,
                decreases self.width - col,
            {
                proof {
                    reveal_strlit("   ");
                    reveal_strlit(" ");
                    reveal_strlit("|");
                }
                result.append("   ");
                let has_east = col + 1 < self.width
                    && self.is_linked_at(row, col, row, col + 1);
                if has_east {
                    result.append(" ");
                } else {
                    result.append("|");
                }
                col += 1;
            }
            result.append("\n");
            result.append("+");
            let mut col2: usize = 0;
            while col2 < self.width
                invariant
                    self.wf(),
                    row < self.height,
                    col2 <= self.width,
                    result@.len() == row_start + 4 * self.width + 3 + 4 * col2,
                decreases self.width - col2,
            {
                proof {
                    reveal_strlit("   ");
                    reveal_strlit("---");
                    reveal_strlit("+");
                }
                let has_south = row + 1 < self.height
                    && self.is_linked_at(row, col2, row + 1, col2);
                if has_south {
                    result.append("   ");
                } else {
                    result.append("---");
                }
                result.append("+");
                col2 += 1;
            }
            result.append("\n");
            proof {
                assert(result@.len() == row_start + (4 * self.width + 2) * 2)
                    by (nonlinear_arith)
                    requires
                        result@.len() == row_start + 4 * self.width + 3
                            + 4 * self.width + 1,
                {}
                assert((4 * self.width + 2) * (1 + 2 * row) + (4 * self.width + 2) * 2
                    == (4 * self.width + 2) * (1 + 2 * (row + 1))) by (nonlinear_arith) {}
            }
            row += 1;
        }
        proof {
            assert((4 * self.width + 2) * (1 + 2 * self.height)
                == (4 * self.width + 2) * (2 * self.height + 1)) by (nonlinear_arith) {}
        }
        result
    }
}

} // verus!