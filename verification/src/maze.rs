//! A finished maze: a generated grid together with the furthest pair of
//! cells, picked as start and end.

use vstd::prelude::*;

use crate::masked_grid::{lemma_full_region_connected, lemma_masked_count_full, masked_count, region_connected, Mask, MaskedGrid};
use crate::grid::{coords_match, lemma_coords_of_index};
use crate::polar_grid::PolarGrid;
use crate::pool::NodeId;

verus! {

/// A generated maze over one of the supported geometries, with a chosen
/// start and end cell.
pub enum Maze {
    MaskedMaze { maze: MaskedGrid, start: NodeId, end: NodeId },
    RadialMaze { maze: PolarGrid, start: NodeId, end: NodeId },
}

/// Which generation algorithm a maze constructor runs.
pub enum Algorithm {
    AldousBroder,
    HuntAndKill,
}

impl Maze {
    /// The underlying grid is well-formed and the chosen endpoints are its
    /// nodes.
    pub open spec fn wf(self) -> bool {
        match self {
            Maze::MaskedMaze { maze, start, end } => {
                &&& maze.wf()
                &&& maze.pool.valid(start)
                &&& maze.pool.valid(end)
            },
            Maze::RadialMaze { maze, start, end } => {
                &&& maze.wf()
                &&& maze.pool.valid(start)
                &&& maze.pool.valid(end)
            },
        }
    }

    /// Every cell of the maze reaches every other through carved passages.
    pub open spec fn fully_connected(self) -> bool {
        match self {
            Maze::MaskedMaze { maze, .. } => maze.pool.link_connected(),
            Maze::RadialMaze { maze, .. } => maze.pool.link_connected(),
        }
    }

    /// Generates a maze over a full rectangular grid. Yields nothing when
    /// the geometry is degenerate (no cells) or the generation walk did
    /// not finish.
    pub fn new_unmasked_cartesian(
        width: usize,
        height: usize,
        algo: Algorithm,
        rng: &mut rand::rngs::ThreadRng,
    ) -> (r: Option<Maze>)
        requires
            width * height <= usize::MAX,
        ensures
            r matches Some(m) ==> m.wf() && m is MaskedMaze && m.fully_connected(),
            algo is HuntAndKill && width * height > 0 ==> r is Some,
    {
        let grid = MaskedGrid::new_unmasked(width, height);
        proof {
            assert forall|j: int| 0 <= j < grid.mask.cells@.len()
                implies #[trigger] grid.mask.cells@[j] by {
                lemma_coords_of_index(width as int, height as int, j);
                let rc = choose|rr: int, cc: int|
                    0 <= rr < height && 0 <= cc < width
                    && #[trigger] coords_match(width as int, rr, cc, j);
                assert(grid.mask.has(rc.0, rc.1));
            }
            lemma_full_region_connected(
                width as int, height as int, grid.mask.cells@);
            lemma_masked_count_full(grid.mask, (width * height) as int);
        }
        Self::finish_masked(grid, algo, rng)
    }

    /// Generates a maze over a masked grid. Yields nothing when the mask
    /// holds no cells, its cells are not a single connected region, or the
    /// generation walk did not finish.
    pub fn new_masked_cartesian(
        width: usize,
        height: usize,
        mask: Mask,
        algo: Algorithm,
        rng: &mut rand::rngs::ThreadRng,
    ) -> (r: Option<Maze>)
        requires
            mask.wf(),
            mask.width == width,
            mask.height == height,
        ensures
            r matches Some(m) ==> m.wf() && m is MaskedMaze && m.fully_connected(),
            algo is HuntAndKill && masked_count(mask, (width * height) as int) > 0
                && region_connected(width as int, height as int, mask.cells@)
                ==> r is Some,
    {
        let grid = MaskedGrid::new(width, height, mask);
        Self::finish_masked(grid, algo, rng)
    }

    /// Runs the chosen algorithm over a freshly built masked grid and
    /// picks its endpoints.
    fn finish_masked(
        grid: MaskedGrid,
        algo: Algorithm,
        rng: &mut rand::rngs::ThreadRng,
    ) -> (r: Option<Maze>)
        requires
            grid.wf(),
            grid.untouched(),
        ensures
            r matches Some(m) ==> m.wf() && m is MaskedMaze && m.fully_connected(),
            algo is HuntAndKill
                && masked_count(grid.mask, (grid.width * grid.height) as int) > 0
                && region_connected(grid.width as int, grid.height as int, grid.mask.cells@)
                ==> r is Some,
    {
        let mut grid = grid;
        if grid.total_cells() == 0 {
            return None;
        }
        proof {
            grid.lemma_region_bridge();
        }
        // The geometry must be one connected region before generation.
        if !grid.pool.is_adjacently_connected() {
            return None;
        }
        match algo {
            Algorithm::AldousBroder => {
                if !grid.aldous_broder(rng) {
                    return None;
                }
            },
            Algorithm::HuntAndKill => {
                grid.hunt_and_kill(rng);
            },
        }
        let furthest = match grid.pool.furthest_pair() {
            Some(pair) => pair,
            None => {
                proof {
                    assert(false);
                }
                (NodeId(0), NodeId(0))
            },
        };
        Some(Maze::MaskedMaze { maze: grid, start: furthest.0, end: furthest.1 })
    }

    /// Generates a maze over a radial grid. Yields nothing when the
    /// geometry is not a single connected region or the generation walk
    /// did not finish.
    pub fn new_unmasked_radial(
        starting_branch_count: usize,
        ring_count: usize,
        algo: Algorithm,
        rng: &mut rand::rngs::ThreadRng,
    ) -> (r: Option<Maze>)
        requires
            starting_branch_count > 1,
            ring_count > 1,
            starting_branch_count + 7 * ring_count <= 0xffff_fffe,
        ensures
            r matches Some(m) ==> m.wf() && m is RadialMaze && m.fully_connected(),
    {
        let mut grid = PolarGrid::new(starting_branch_count, ring_count);
        if !grid.pool.is_adjacently_connected() {
            return None;
        }
        proof {
            if grid.pool.nodes@.len() >= 2 {
                grid.pool.lemma_connected_no_dead_ends();
            }
        }
        let ghost pre_pool = grid.pool;
        match algo {
            Algorithm::AldousBroder => {
                if !grid.pool.aldous_broder(rng) {
                    return None;
                }
            },
            Algorithm::HuntAndKill => {
                grid.pool.hunt_and_kill(rng);
            },
        }
        proof {
            assert forall|r: int, c: int|
                0 <= r < grid.rings@.len() && 0 <= c < grid.rings@[r]@.len()
                implies (#[trigger] grid.rings@[r]@[c]).0 < grid.pool.nodes@.len() by {
                assert(pre_pool.nodes@.len() == grid.pool.nodes@.len());
            }
        }
        let furthest = match grid.pool.furthest_pair() {
            Some(pair) => pair,
            None => {
                proof {
                    assert(false);
                }
                (NodeId(0), NodeId(0))
            },
        };
        Some(Maze::RadialMaze { maze: grid, start: furthest.0, end: furthest.1 })
    }

    /// Serializes a masked maze to the binary format, appending to `out`.
    /// Radial mazes have no binary format.
    pub fn write_maze(&self, out: &mut Vec<u8>)
        requires
            self.wf(),
            self is MaskedMaze,
        ensures
            self matches Maze::MaskedMaze { maze, .. } ==> {
                &&& final(out)@.len() == old(out)@.len() + 24 + maze.width * maze.height
                &&& final(out)@.subrange(0, old(out)@.len() as int) == old(out)@
                &&& forall|r: int, c: int| maze.in_bounds(r, c)
                    ==> final(out)@[old(out)@.len() as int + 24 + r * maze.width + c]
                        == maze.byte_at(r, c)
            },
    {
        match self {
            Maze::MaskedMaze { maze, .. } => {
                maze.write_maze(out);
            },
            Maze::RadialMaze { .. } => {
                proof {
                    assert(false);
                }
            },
        }
    }
}

} // verus!
