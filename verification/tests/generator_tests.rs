use mazegen::dijkstra::{DijkstraPad, Distance};
use mazegen::grid::{BinaryTreeSettings, FlatSquareGrid};
use mazegen::masked_grid::{Mask, MaskedGrid};
use mazegen::pool::{NodeId, Pool};
use mazegen::rng::{fresh_rng, sample_uniform};

fn all_reachable<T>(pool: &Pool<T>, start: NodeId) -> bool {
    let distances = DijkstraPad::new(pool, start).perform();
    distances
        .pool
        .nodes
        .iter()
        .all(|n| matches!(n.payload, Distance::Finite(_)))
}

fn directed_link_count<T>(pool: &Pool<T>) -> usize {
    pool.nodes.iter().map(|n| n.links.len()).sum()
}

#[test]
fn aldous_broder_yields_a_spanning_tree() {
    let mut rng = fresh_rng();
    let mut grid = FlatSquareGrid::new(5, 4);
    assert!(grid.aldous_broder(&mut rng));
    let start = grid.node_pool.get_arbitrary_node_id();
    assert!(all_reachable(&grid.node_pool, start));
    // Acyclic and connected: exactly cells - 1 undirected links.
    assert_eq!(directed_link_count(&grid.node_pool), 2 * (20 - 1));
}

#[test]
fn hunt_and_kill_yields_a_spanning_tree() {
    let mut rng = fresh_rng();
    let mut grid = FlatSquareGrid::new(5, 5);
    grid.hunt_and_kill(&mut rng);
    let start = grid.node_pool.get_arbitrary_node_id();
    assert!(all_reachable(&grid.node_pool, start));
    assert_eq!(directed_link_count(&grid.node_pool), 2 * (25 - 1));
}

#[test]
fn recursive_backtracker_yields_a_spanning_tree() {
    let mut rng = fresh_rng();
    let mut grid = FlatSquareGrid::new(6, 3);
    grid.recursive_backtracker(&mut rng);
    let start = grid.node_pool.get_arbitrary_node_id();
    assert!(all_reachable(&grid.node_pool, start));
    assert_eq!(directed_link_count(&grid.node_pool), 2 * (18 - 1));
}

#[test]
fn wilson_yields_a_spanning_tree() {
    let mut rng = fresh_rng();
    let mut grid = FlatSquareGrid::new(4, 4);
    assert!(grid.wilson(&mut rng));
    let start = grid.node_pool.get_arbitrary_node_id();
    assert!(all_reachable(&grid.node_pool, start));
    assert_eq!(directed_link_count(&grid.node_pool), 2 * (16 - 1));
}

#[test]
fn binary_tree_links_every_cell_north_or_east() {
    let mut rng = fresh_rng();
    let mut grid = FlatSquareGrid::new(4, 4);
    let settings = BinaryTreeSettings::with_probability_north(1, 2);
    grid.binary_tree(&settings, &mut rng);
    for row in 0..4usize {
        for col in 0..4usize {
            if row == 0 && col == 3 {
                continue;
            }
            let north = row > 0 && grid.is_linked_at(row, col, row - 1, col);
            let east = col < 3 && grid.is_linked_at(row, col, row, col + 1);
            assert!(north || east, "cell ({row},{col}) must link north or east");
        }
    }
    let start = grid.node_pool.get_arbitrary_node_id();
    assert!(all_reachable(&grid.node_pool, start));
}

#[test]
fn sidewinder_connects_the_grid() {
    let mut rng = fresh_rng();
    let mut grid = FlatSquareGrid::new(5, 4);
    grid.sidewinder(&mut rng);
    // The first row is one long corridor.
    for col in 0..4usize {
        assert!(grid.is_linked_at(0, col, 0, col + 1));
    }
    let start = grid.node_pool.get_arbitrary_node_id();
    assert!(all_reachable(&grid.node_pool, start));
}

#[test]
fn masked_grid_generation_spans_the_mask() {
    let mut rng = fresh_rng();
    // A 3x3 grid with one corner missing.
    let mut cells = vec![true; 9];
    cells[8] = false;
    let mask = Mask::new(3, 3, cells);
    let mut grid = MaskedGrid::new(3, 3, mask);
    assert!(grid.pool.is_adjacently_connected());
    grid.hunt_and_kill(&mut rng);
    let start = grid.pool.get_arbitrary_node_id();
    assert!(all_reachable(&grid.pool, start));
    assert_eq!(grid.total_cells(), 8);
    assert_eq!(directed_link_count(&grid.pool), 2 * (8 - 1));
}

#[test]
fn sample_uniform_picks_a_member() {
    let mut rng = fresh_rng();
    let values = [4u32, 8, 15, 16, 23, 42];
    for _ in 0..32 {
        let picked = *sample_uniform(&values, &mut rng);
        assert!(values.contains(&picked));
    }
}

#[test]
fn text_print_has_the_exact_frame_size() {
    let grid = FlatSquareGrid::new(2, 2);
    let text = grid.text_print();
    assert_eq!(text.len(), (4 * 2 + 2) * (2 * 2 + 1));
    assert!(text.starts_with('+'));
}
