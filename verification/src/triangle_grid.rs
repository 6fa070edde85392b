//! A triangular grid geometry: rows of alternating up- and down-pointing
//! triangle cells. Only the data model stands so far; no constructor wires
//! the adjacencies yet.

use vstd::prelude::*;

use crate::pool::{NodeId, Pool};

verus! {

/// A triangular cell: its pool id and its position on the grid.
pub struct TriangleCell {
    pub id: NodeId,
    pub row: usize,
    pub col: usize,
}

/// A grid of triangle cells backed by a node pool, with a row-major table
/// from positions to ids.
pub struct TriangleGrid {
    pub cell_coordinates: Vec<Option<NodeId>>,
    pub pool: Pool<()>,
    pub width: usize,
    pub height: usize,
}

} // verus!
