//! A radial (polar) grid: rings of cells around a single center cell, where
//! an outer ring doubles its cell count whenever its cells would otherwise
//! grow wider than they are tall.

use vstd::prelude::*;

use crate::pool::{NodeId, Pool};

verus! {

/// The shape of a radial grid: how many cells its first ring holds. Ring
/// zero is always the single center cell.
#[derive(Debug)]
pub struct RingProfile(pub usize);

/// A position on a radial grid: which ring, and which cell around it.
#[derive(Clone, Copy, PartialEq, Eq, Structural, Debug)]
pub struct RingPosition {
    pub ring: usize,
    pub column: usize,
}

/// One step between neighboring cells of a radial grid.
pub enum RingStep {
    UpSplitLeft,
    UpSplitRight,
    UpSingle,
    CW,
    CCW,
    Down,
}

/// The cells directly above a cell: the whole first ring above the center,
/// a pair when the ring above splits, or a single cell otherwise.
pub enum AnyAbove {
    SplitCenter(Vec<RingPosition>),
    Split(RingPosition, RingPosition),
    Single(RingPosition),
}

/// The number of cells of ring `ring` in a profile starting with `branch`
/// cells: the count doubles from one ring to the next whenever the new
/// ring's circumference would exceed two length units per cell. The
/// comparison stands for `pi * ring > cells`, decided with the rational
/// bound 355/113 for pi.
pub open spec fn ring_cells(branch: int, ring: int) -> int
    decreases ring,
{
    if ring <= 0 {
        1
    } else if ring == 1 {
        branch
    } else {
        let prev = ring_cells(branch, ring - 1);
        if 355 * ring > 113 * prev {
            2 * prev
        } else {
            prev
        }
    }
}

/// Ring sizes start at the branch count and never shrink.
pub proof fn lemma_ring_cells_bounds(branch: int, ring: int)
    requires
        branch >= 2,
        ring >= 1,
    ensures
        branch <= ring_cells(branch, ring),
        ring_cells(branch, ring) <= branch + 7 * ring,
    decreases ring,
{
    if ring == 1 {
    } else {
        lemma_ring_cells_bounds(branch, ring - 1);
        let prev = ring_cells(branch, ring - 1);
        if 355 * ring > 113 * prev {
            assert(2 * prev <= branch + 7 * ring) by (nonlinear_arith)
                requires
                    113 * prev < 355 * ring,
                    prev >= 2,
                    branch >= 2,
                    ring >= 2,
            {}
        }
    }
}

impl RingProfile {
    /// A profile is meaningful only with at least two starting branches.
    pub open spec fn wf(self) -> bool {
        self.0 > 1
    }

    /// Builds a profile; a radial grid needs at least two starting
    /// branches.
    pub fn new(starting_branch_count: usize) -> (r: Self)
        requires
            starting_branch_count > 1,
        ensures
            r.0 == starting_branch_count,
            r.wf(),
    {
        RingProfile(starting_branch_count)
    }

    /// How many cells ring `ring` holds.
    pub fn ring_cell_count(&self, ring: usize) -> (r: usize)
        requires
            self.wf(),
            self.0 + 7 * ring <= 0xffff_ffff,
        ensures
            r == ring_cells(self.0 as int, ring as int),
            r >= 1,
            ring >= 1 ==> r >= self.0,
    {
        if ring == 0 {
            return 1;
        } else if ring == 1 {
            return self.0;
        }
        let mut cell_count = self.0;
        let mut r: usize = 1;
        while r < ring
            invariant
                self.wf(),
                self.0 + 7 * ring <= 0xffff_ffff,
                1 <= r <= ring,
                ring >= 2,
                cell_count == ring_cells(self.0 as int, r as int),
                cell_count >= self.0,
                cell_count <= self.0 + 7 * r,
            decreases ring - r,
        {
            proof {
                lemma_ring_cells_bounds(self.0 as int, r as int);
                lemma_ring_cells_bounds(self.0 as int, r as int + 1);
            }
            if 355u64 * ((r as u64) + 1) > 113u64 * (cell_count as u64) {
                cell_count = cell_count * 2;
            }
            r += 1;
        }
        proof {
            lemma_ring_cells_bounds(self.0 as int, ring as int);
        }
        cell_count
    }

    /// What stands directly above `pos`: the whole first ring for the
    /// center, a split pair where the ring above doubles, or the single
    /// cell with the same column otherwise.
    pub fn any_above(&self, pos: RingPosition) -> (r: AnyAbove)
        requires
            self.wf(),
            self.0 + 7 * (pos.ring + 1) <= 0xffff_ffff,
            pos.column < ring_cells(self.0 as int, pos.ring as int),
        ensures
            match r {
                AnyAbove::SplitCenter(aboves) => {
                    &&& pos.ring == 0
                    &&& aboves@.len() == ring_cells(self.0 as int, 1)
                    &&& forall|k: int| 0 <= k < aboves@.len()
                        ==> (#[trigger] aboves@[k]) == (RingPosition {
                            ring: 1,
                            column: k as usize,
                        })
                },
                AnyAbove::Split(left, right) => {
                    &&& pos.ring > 0
                    &&& ring_cells(self.0 as int, pos.ring + 1)
                        > ring_cells(self.0 as int, pos.ring as int)
                    &&& left == (RingPosition { ring: (pos.ring + 1) as usize, column: (pos.column * 2) as usize })
                    &&& right == (RingPosition {
                        ring: (pos.ring + 1) as usize,
                        column: (pos.column * 2 + 1) as usize,
                    })
                },
                AnyAbove::Single(above) => {
                    &&& pos.ring > 0
                    &&& ring_cells(self.0 as int, pos.ring + 1)
                        == ring_cells(self.0 as int, pos.ring as int)
                    &&& above == (RingPosition { ring: (pos.ring + 1) as usize, column: pos.column })
                },
            },
    {
        let ring_width = self.ring_cell_count(pos.ring);
        let ring_width_above = self.ring_cell_count(pos.ring + 1);
        proof {
            if pos.ring > 0 {
                lemma_ring_cells_monotone(self.0 as int, pos.ring as int);
            }
        }
        if pos.ring == 0 {
            let mut aboves: Vec<RingPosition> = Vec::new();
            let mut column: usize = 0;
            while column < ring_width_above
                invariant
                    column <= ring_width_above,
                    aboves@.len() == column,
                    forall|k: int| 0 <= k < aboves@.len()
                        ==> (#[trigger] aboves@[k]) == (RingPosition {
                            ring: 1,
                            column: k as usize,
                        }),
                decreases ring_width_above - column,
            {
                aboves.push(RingPosition { ring: 1, column });
                column += 1;
            }
            AnyAbove::SplitCenter(aboves)
        } else if ring_width_above > ring_width {
            AnyAbove::Split(
                RingPosition { column: pos.column * 2, ring: pos.ring + 1 },
                RingPosition { column: pos.column * 2 + 1, ring: pos.ring + 1 },
            )
        } else {
            AnyAbove::Single(RingPosition { column: pos.column, ring: pos.ring + 1 })
        }
    }

    /// Where one step from `pos` lands, if the grid continues that way.
    /// The center cell supports no steps.
    pub fn take_step(&self, pos: RingPosition, step: RingStep) -> (r: Option<RingPosition>)
        requires
            self.wf(),
            self.0 + 7 * (pos.ring + 1) <= 0xffff_ffff,
            pos.column < ring_cells(self.0 as int, pos.ring as int),
        ensures
            pos.ring == 0 ==> r == None::<RingPosition>,
            pos.ring > 0 ==> r == (match step {
                RingStep::UpSplitLeft => if ring_cells(self.0 as int, pos.ring + 1)
                    > ring_cells(self.0 as int, pos.ring as int) {
                    Some(RingPosition {
                        ring: (pos.ring + 1) as usize,
                        column: (pos.column * 2) as usize,
                    })
                } else {
                    None
                },
                RingStep::UpSplitRight => if ring_cells(self.0 as int, pos.ring + 1)
                    > ring_cells(self.0 as int, pos.ring as int) {
                    Some(RingPosition {
                        ring: (pos.ring + 1) as usize,
                        column: (pos.column * 2 + 1) as usize,
                    })
                } else {
                    None
                },
                RingStep::UpSingle => if ring_cells(self.0 as int, pos.ring + 1)
                    == ring_cells(self.0 as int, pos.ring as int) {
                    Some(RingPosition { ring: (pos.ring + 1) as usize, column: pos.column })
                } else {
                    None
                },
                RingStep::CW => if pos.column + 1 == ring_cells(self.0 as int, pos.ring as int) {
                    Some(RingPosition { ring: pos.ring, column: 0 })
                } else {
                    Some(RingPosition { ring: pos.ring, column: (pos.column + 1) as usize })
                },
                RingStep::CCW => if pos.column == 0 {
                    Some(RingPosition {
                        ring: pos.ring,
                        column: (ring_cells(self.0 as int, pos.ring as int) - 1) as usize,
                    })
                } else {
                    Some(RingPosition { ring: pos.ring, column: (pos.column - 1) as usize })
                },
                RingStep::Down => if pos.ring == 1 {
                    Some(RingPosition { ring: 0, column: 0 })
                } else if ring_cells(self.0 as int, pos.ring - 1)
                    < ring_cells(self.0 as int, pos.ring as int) {
                    Some(RingPosition {
                        ring: (pos.ring - 1) as usize,
                        column: (pos.column / 2) as usize,
                    })
                } else {
                    Some(RingPosition { ring: (pos.ring - 1) as usize, column: pos.column })
                },
            }),
    {
        if pos.ring == 0 {
            return None;
        }
        proof {
            lemma_ring_cells_monotone(self.0 as int, pos.ring as int);
            if pos.ring >= 2 {
                lemma_ring_cells_monotone(self.0 as int, pos.ring as int - 1);
            }
            lemma_ring_cells_bounds(self.0 as int, pos.ring as int);
        }
        match step {
            RingStep::UpSplitLeft => {
                let ring_width = self.ring_cell_count(pos.ring);
                let ring_width_above = self.ring_cell_count(pos.ring + 1);
                if ring_width_above > ring_width {
                    Some(RingPosition { ring: pos.ring + 1, column: pos.column * 2 })
                } else {
                    None
                }
            },
            RingStep::UpSplitRight => {
                let ring_width = self.ring_cell_count(pos.ring);
                let ring_width_above = self.ring_cell_count(pos.ring + 1);
                if ring_width_above > ring_width {
                    Some(RingPosition { ring: pos.ring + 1, column: pos.column * 2 + 1 })
                } else {
                    None
                }
            },
            RingStep::UpSingle => {
                let ring_width = self.ring_cell_count(pos.ring);
                let ring_width_above = self.ring_cell_count(pos.ring + 1);
                if ring_width == ring_width_above {
                    Some(RingPosition { ring: pos.ring + 1, column: pos.column })
                } else {
                    None
                }
            },
            RingStep::CW => {
                let ring_width = self.ring_cell_count(pos.ring);
                if pos.column + 1 == ring_width {
                    Some(RingPosition { column: 0, ring: pos.ring })
                } else {
                    Some(RingPosition { column: pos.column + 1, ring: pos.ring })
                }
            },
            RingStep::CCW => {
                let ring_width = self.ring_cell_count(pos.ring);
                if pos.column == 0 {
                    Some(RingPosition { column: ring_width - 1, ring: pos.ring })
                } else {
                    Some(RingPosition { column: pos.column - 1, ring: pos.ring })
                }
            },
            RingStep::Down => {
                if pos.ring == 1 {
                    return Some(RingPosition { ring: 0, column: 0 });
                }
                let ring_width = self.ring_cell_count(pos.ring);
                let ring_width_below = self.ring_cell_count(pos.ring - 1);
                if ring_width_below < ring_width {
                    Some(RingPosition { ring: pos.ring - 1, column: pos.column / 2 })
                } else {
                    Some(RingPosition { ring: pos.ring - 1, column: pos.column })
                }
            },
        }
    }
}

/// Each ring has at least as many cells as the one before it, and at most
/// twice as many.
pub proof fn lemma_ring_cells_monotone(branch: int, ring: int)
    requires
        branch >= 2,
        ring >= 1,
    ensures
        ring_cells(branch, ring) <= ring_cells(branch, ring + 1)
            <= 2 * ring_cells(branch, ring),
{
    lemma_ring_cells_bounds(branch, ring);
    let prev = ring_cells(branch, ring);
    assert(ring_cells(branch, ring + 1) == if 355 * (ring + 1) > 113 * prev {
        2 * prev
    } else {
        prev
    });
}

/// A radial maze grid: a profile, a pool with one node per cell, and the
/// table of node ids ring by ring.
#[derive(Debug)]
pub struct PolarGrid {
    pub profile: RingProfile,
    pub pool: Pool<()>,
    pub rings: Vec<Vec<NodeId>>,
}

impl PolarGrid {
    /// The grid's tables are consistent: a well-formed pool, one id table
    /// row per ring with the profile's cell count, and valid ids
    /// throughout.
    pub open spec fn wf(self) -> bool {
        &&& self.profile.wf()
        &&& self.pool.wf()
        &&& self.rings@.len() >= 2
        &&& forall|r: int| 0 <= r < self.rings@.len()
            ==> (#[trigger] self.rings@[r])@.len()
                == ring_cells(self.profile.0 as int, r)
        &&& forall|r: int, c: int|
            0 <= r < self.rings@.len() && 0 <= c < self.rings@[r]@.len()
            ==> (#[trigger] self.rings@[r]@[c]).0 < self.pool.nodes@.len()
    }

    /// `pos` names a cell of this grid.
    pub open spec fn pos_ok(self, pos: RingPosition) -> bool {
        pos.ring < self.rings@.len()
            && pos.column < ring_cells(self.profile.0 as int, pos.ring as int)
    }

    /// The pool id of the cell at `pos`.
    pub open spec fn id_of(self, pos: RingPosition) -> NodeId {
        self.rings@[pos.ring as int]@[pos.column as int]
    }

    /// Builds a radial grid: one center cell, `ring_count - 1` rings around
    /// it, every cell adjacent to its rotational neighbors, to the cells
    /// above it and (except for the outermost ring) below it.
    pub fn new(starting_branch_count: usize, ring_count: usize) -> (g: PolarGrid)
        requires
            starting_branch_count > 1,
            ring_count > 1,
            starting_branch_count + 7 * ring_count <= 0xffff_fffe,
        ensures
            g.wf(),
            g.profile.0 == starting_branch_count,
            g.rings@.len() == ring_count,
            g.pool.nodes@.len() > 0,
            g.pool.adj_symmetric(),
            forall|i: int| 0 <= i < g.pool.nodes@.len()
                ==> (#[trigger] g.pool.nodes@[i]).links@.len() == 0,
    {
        let profile = RingProfile::new(starting_branch_count);
        let mut pool: Pool<()> = Pool::new();
        let mut rings: Vec<Vec<NodeId>> = Vec::new();
        let mut ring: usize = 0;
        while ring < ring_count
            invariant
                profile.0 == starting_branch_count,
                profile.wf(),
                starting_branch_count + 7 * ring_count <= 0xffff_fffe,
                ring <= ring_count,
                rings@.len() == ring,
                pool.wf(),
                forall|r: int| 0 <= r < ring
                    ==> (#[trigger] rings@[r])@.len() == ring_cells(profile.0 as int, r),
                forall|r: int, c: int| 0 <= r < ring && 0 <= c < rings@[r]@.len()
                    ==> (#[trigger] rings@[r]@[c]).0 < pool.nodes@.len(),
                forall|i: int| 0 <= i < pool.nodes@.len()
                    ==> (#[trigger] pool.nodes@[i]).links@.len() == 0,
                forall|i: int| 0 <= i < pool.nodes@.len()
                    ==> (#[trigger] pool.nodes@[i]).adjacencies@.len() == 0,
            decreases ring_count - ring,
        {
            let ring_width = profile.ring_cell_count(ring);
            let mut ring_ids: Vec<NodeId> = Vec::new();
            let ghost rings0 = rings@;
            let ghost pool_len0 = pool.nodes@.len();
            let mut col: usize = 0;
            while col < ring_width
                invariant
                    col <= ring_width,
                    ring_ids@.len() == col,
                    pool.wf(),
                    pool_len0 <= pool.nodes@.len(),
                    forall|k: int| 0 <= k < ring_ids@.len()
                        ==> (#[trigger] ring_ids@[k]).0 < pool.nodes@.len(),
                    forall|i: int| 0 <= i < pool.nodes@.len()
                        ==> (#[trigger] pool.nodes@[i]).links@.len() == 0,
                    forall|i: int| 0 <= i < pool.nodes@.len()
                        ==> (#[trigger] pool.nodes@[i]).adjacencies@.len() == 0,
                decreases ring_width - col,
            {
                let id = pool.new_node(|_id: NodeId| ());
                ring_ids.push(id);
                col += 1;
            }
            let ghost rids = ring_ids@;
            let ghost rids_vec = ring_ids;
            rings.push(ring_ids);
            proof {
                assert(rings@ == rings0.push(rids_vec));
                assert(rings0.push(rids_vec).index(rings0.len() as int) == rids_vec);
                assert(rings0.len() == ring);
                assert(rings@.len() == ring + 1);
                assert(rings@[ring as int]@ == rids);
                assert forall|r: int, c: int|
                    0 <= r < ring + 1 && 0 <= c < rings@[r]@.len()
                    implies (#[trigger] rings@[r]@[c]).0 < pool.nodes@.len() by {
                    if r < ring {
                        assert(rings@[r]@ == rings0[r]@);
                        assert(rings0[r]@[c].0 < pool_len0);
                    } else {
                        assert(rings@[r]@ == rids);
                    }
                }
                assert forall|r: int| 0 <= r < ring + 1
                    implies (#[trigger] rings@[r])@.len()
                        == ring_cells(profile.0 as int, r) by {
                    if r < ring {
                        assert(rings@[r]@ == rings0[r]@);
                    }
                }
            }
            ring += 1;
        }
        let mut grid = PolarGrid { profile, pool, rings };
        proof {
            assert(grid.wf());
            assert forall|a: NodeId, b: NodeId| #[trigger] grid.pool.adjacent(a, b)
                implies grid.pool.adjacent(b, a) by {
                if grid.pool.adjacent(a, b) {
                    let adjacencies = grid.pool.nodes@[a.0 as int].adjacencies@;
                    let q = choose|q: int|
                        0 <= q < adjacencies.len() && adjacencies[q] == b;
                    assert(false);
                }
            }
        }

        // Stitch ring 1 to the center.
        let center = grid.rings[0][0];
        let ring1_width = grid.profile.ring_cell_count(1);
        let mut column: usize = 0;
        while column < ring1_width
            invariant
                grid.wf(),
                grid.profile.0 == starting_branch_count,
                starting_branch_count + 7 * ring_count <= 0xffff_fffe,
                grid.rings@.len() == ring_count,
                ring_count > 1,
                ring1_width == ring_cells(grid.profile.0 as int, 1),
                center == grid.rings@[0]@[0],
                column <= ring1_width,
                grid.pool.adj_symmetric(),
                grid.pool.nodes@.len() > 0,
                forall|i: int| 0 <= i < grid.pool.nodes@.len()
                    ==> (#[trigger] grid.pool.nodes@[i]).links@.len() == 0,
            decreases ring1_width - column,
        {
            let there = grid.rings[1][column];
            grid.pool.make_adjacent(center, there, true);
            column += 1;
        }

        // Stitch every intermediate ring around itself and to the ring
        // above it; the outermost ring only around itself.
        let mut ring: usize = 1;
        while ring < ring_count
            invariant
                grid.wf(),
                grid.profile.0 == starting_branch_count,
                starting_branch_count + 7 * ring_count <= 0xffff_fffe,
                grid.rings@.len() == ring_count,
                ring_count > 1,
                1 <= ring,
                grid.pool.adj_symmetric(),
                grid.pool.nodes@.len() > 0,
                forall|i: int| 0 <= i < grid.pool.nodes@.len()
                    ==> (#[trigger] grid.pool.nodes@[i]).links@.len() == 0,
            decreases ring_count - ring,
        {
            let ring_width = grid.profile.ring_cell_count(ring);
            let mut column: usize = 0;
            while column < ring_width
                invariant
                    grid.wf(),
                    grid.profile.0 == starting_branch_count,
                    starting_branch_count + 7 * ring_count <= 0xffff_fffe,
                    grid.rings@.len() == ring_count,
                    ring_count > 1,
                    1 <= ring < ring_count,
                    ring_width == ring_cells(grid.profile.0 as int, ring as int),
                    column <= ring_width,
                    grid.pool.adj_symmetric(),
                    grid.pool.nodes@.len() > 0,
                    forall|i: int| 0 <= i < grid.pool.nodes@.len()
                        ==> (#[trigger] grid.pool.nodes@[i]).links@.len() == 0,
                decreases ring_width - column,
            {
                let here_pos = RingPosition { ring, column };
                let here = grid.rings[ring][column];
                // Stitch the cell to the one clockwise of it.
                let cw = match grid.profile.take_step(here_pos, RingStep::CW) {
                    Some(p) => p,
                    None => {
                        proof {
                            assert(false);
                        }
                        here_pos
                    },
                };
                proof {
                    assert(cw.ring == ring && cw.column < ring_width);
                }
                let there = grid.rings[cw.ring][cw.column];
                grid.pool.make_adjacent(here, there, true);

                // Stitch the cell to the ones above it, except on the
                // outermost ring.
                if ring < ring_count - 1 {
                    proof {
                        lemma_ring_cells_monotone(grid.profile.0 as int, ring as int);
                        lemma_ring_cells_bounds(grid.profile.0 as int, ring as int);
                        lemma_ring_cells_bounds(grid.profile.0 as int, ring as int + 1);
                    }
                    match grid.profile.any_above(here_pos) {
                        AnyAbove::SplitCenter(_) => {
                            proof {
                                assert(false);
                            }
                        },
                        AnyAbove::Split(left, right) => {
                            let left_id = grid.rings[left.ring][left.column];
                            grid.pool.make_adjacent(here, left_id, true);
                            let right_id = grid.rings[right.ring][right.column];
                            grid.pool.make_adjacent(here, right_id, true);
                        },
                        AnyAbove::Single(above) => {
                            let above_id = grid.rings[above.ring][above.column];
                            grid.pool.make_adjacent(here, above_id, true);
                        },
                    }
                }
                column += 1;
            }
            ring += 1;
        }
        grid
    }

    /// A cell has a floor when it is not linked to the cell below it; the
    /// center has none.
    pub fn is_floor(&self, pos: RingPosition) -> (r: bool)
        requires
            self.wf(),
            self.pos_ok(pos),
            self.profile.0 + 7 * (pos.ring + 1) <= 0xffff_ffff,
        ensures
            pos.ring == 0 ==> r == false,
            pos.ring > 0 ==> {
                let below = if pos.ring == 1 {
                    RingPosition { ring: 0, column: 0 }
                } else if ring_cells(self.profile.0 as int, pos.ring - 1)
                    < ring_cells(self.profile.0 as int, pos.ring as int) {
                    RingPosition {
                        ring: (pos.ring - 1) as usize,
                        column: (pos.column / 2) as usize,
                    }
                } else {
                    RingPosition { ring: (pos.ring - 1) as usize, column: pos.column }
                };
                r == !self.pool.linked(self.id_of(pos), self.id_of(below))
            },
    {
        if pos.ring == 0 {
            false
        } else {
            let below = match self.profile.take_step(pos, RingStep::Down) {
                Some(p) => p,
                None => {
                    proof {
                        assert(false);
                    }
                    pos
                },
            };
            proof {
                if pos.ring >= 2 {
                    lemma_ring_cells_monotone(self.profile.0 as int, pos.ring as int - 1);
                    lemma_ring_cells_bounds(self.profile.0 as int, pos.ring as int - 1);
                    assert(below.ring < self.rings@.len());
                    assert(pos.column / 2 <= pos.column) by (nonlinear_arith)
                        requires
                            pos.column >= 0,
                    {}
                }
                assert(self.pos_ok(below));
            }
            !self.pool.is_linked(self.id_at(pos), self.id_at(below))
        }
    }

    /// A cell has a left wall when it is not linked to the cell
    /// counterclockwise of it; the center has none.
    pub fn is_left_wall(&self, pos: RingPosition) -> (r: bool)
        requires
            self.wf(),
            self.pos_ok(pos),
            self.profile.0 + 7 * (pos.ring + 1) <= 0xffff_ffff,
        ensures
            pos.ring == 0 ==> r == false,
            pos.ring > 0 ==> {
                let ccw = if pos.column == 0 {
                    RingPosition {
                        ring: pos.ring,
                        column: (ring_cells(self.profile.0 as int, pos.ring as int)
                            - 1) as usize,
                    }
                } else {
                    RingPosition { ring: pos.ring, column: (pos.column - 1) as usize }
                };
                r == !self.pool.linked(self.id_of(pos), self.id_of(ccw))
            },
    {
        if pos.ring == 0 {
            false
        } else {
            let ccw = match self.profile.take_step(pos, RingStep::CCW) {
                Some(p) => p,
                None => {
                    proof {
                        assert(false);
                    }
                    pos
                },
            };
            proof {
                lemma_ring_cells_bounds(self.profile.0 as int, pos.ring as int);
                assert(self.pos_ok(ccw));
            }
            !self.pool.is_linked(self.id_at(pos), self.id_at(ccw))
        }
    }

    /// Looks up the pool id of the cell at `pos`.
    pub fn id_at(&self, pos: RingPosition) -> (r: NodeId)
        requires
            self.wf(),
            self.pos_ok(pos),
        ensures
            r == self.id_of(pos),
            self.pool.valid(r),
    {
        self.rings[pos.ring][pos.column]
    }
}

} // verus!
