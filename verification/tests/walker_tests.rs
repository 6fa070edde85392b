use mazegen::grid::walker::Walker;
use mazegen::grid::{Direction, FlatSquareGrid};
use mazegen::pool::NodeId;

#[test]
fn non_overlapping_path() {
    let grid = FlatSquareGrid::new(4, 4);
    let mut w = Walker::new(grid.node_pool.nodes[0].id);
    assert_eq!(w.total_path(), vec![NodeId(0)]);
    w.loop_erased_step(w.next_step_at_direction(&grid, Direction::South).unwrap());
    assert_eq!(w.total_path(), vec![NodeId(0), NodeId(4)]);
    w.loop_erased_step(w.next_step_at_direction(&grid, Direction::East).unwrap());
    assert_eq!(w.total_path(), vec![NodeId(0), NodeId(4), NodeId(5)]);
    w.loop_erased_step(w.next_step_at_direction(&grid, Direction::North).unwrap());
    assert_eq!(w.total_path(), vec![NodeId(0), NodeId(4), NodeId(5), NodeId(1)]);
}

#[test]
fn overlapping_middle_path() {
    let grid = FlatSquareGrid::new(4, 4);
    let mut w = Walker::new(grid.node_pool.nodes[5].id);
    assert_eq!(w.total_path(), vec![NodeId(5)]);
    w.loop_erased_step(w.next_step_at_direction(&grid, Direction::South).unwrap());
    assert_eq!(w.total_path(), vec![NodeId(5), NodeId(9)]);
    w.loop_erased_step(w.next_step_at_direction(&grid, Direction::East).unwrap());
    assert_eq!(w.total_path(), vec![NodeId(5), NodeId(9), NodeId(10)]);
    w.loop_erased_step(w.next_step_at_direction(&grid, Direction::East).unwrap());
    assert_eq!(w.total_path(), vec![NodeId(5), NodeId(9), NodeId(10), NodeId(11)]);
    w.loop_erased_step(w.next_step_at_direction(&grid, Direction::North).unwrap());
    assert_eq!(
        w.total_path(),
        vec![NodeId(5), NodeId(9), NodeId(10), NodeId(11), NodeId(7)]
    );
    w.loop_erased_step(w.next_step_at_direction(&grid, Direction::West).unwrap());
    assert_eq!(
        w.total_path(),
        vec![NodeId(5), NodeId(9), NodeId(10), NodeId(11), NodeId(7), NodeId(6)]
    );
    w.loop_erased_step(w.next_step_at_direction(&grid, Direction::South).unwrap());
    assert_eq!(w.total_path(), vec![NodeId(5), NodeId(9)]);
}

#[test]
fn overlapping_start_path() {
    let grid = FlatSquareGrid::new(4, 4);
    let mut w = Walker::new(grid.node_pool.nodes[5].id);
    assert_eq!(w.total_path(), vec![NodeId(5)]);
    w.loop_erased_step(w.next_step_at_direction(&grid, Direction::South).unwrap());
    assert_eq!(w.total_path(), vec![NodeId(5), NodeId(9)]);
    w.loop_erased_step(w.next_step_at_direction(&grid, Direction::East).unwrap());
    assert_eq!(w.total_path(), vec![NodeId(5), NodeId(9), NodeId(10)]);
    w.loop_erased_step(w.next_step_at_direction(&grid, Direction::East).unwrap());
    assert_eq!(w.total_path(), vec![NodeId(5), NodeId(9), NodeId(10), NodeId(11)]);
    w.loop_erased_step(w.next_step_at_direction(&grid, Direction::North).unwrap());
    assert_eq!(
        w.total_path(),
        vec![NodeId(5), NodeId(9), NodeId(10), NodeId(11), NodeId(7)]
    );
    w.loop_erased_step(w.next_step_at_direction(&grid, Direction::West).unwrap());
    assert_eq!(
        w.total_path(),
        vec![NodeId(5), NodeId(9), NodeId(10), NodeId(11), NodeId(7), NodeId(6)]
    );
    w.loop_erased_step(w.next_step_at_direction(&grid, Direction::West).unwrap());
    assert_eq!(w.total_path(), vec![NodeId(5)]);
}

#[test]
fn final_node_follows_the_walk() {
    let grid = FlatSquareGrid::new(4, 4);
    let mut w = Walker::new(grid.node_pool.nodes[0].id);
    assert_eq!(w.final_node(), NodeId(0));
    w.loop_erased_step(NodeId(4));
    assert_eq!(w.final_node(), NodeId(4));
    w.loop_erased_step(NodeId(0));
    assert_eq!(w.final_node(), NodeId(0));
    assert_eq!(w.total_path(), vec![NodeId(0)]);
}

#[test]
fn carve_path_links_every_consecutive_pair() {
    let mut grid = FlatSquareGrid::new(4, 4);
    let mut w = Walker::new(grid.node_pool.nodes[0].id);
    w.loop_erased_step(NodeId(1));
    w.loop_erased_step(NodeId(2));
    w.carve_path(&mut grid.node_pool);
    assert!(grid.is_linked(NodeId(0), NodeId(1)));
    assert!(grid.is_linked(NodeId(1), NodeId(0)));
    assert!(grid.is_linked(NodeId(1), NodeId(2)));
    assert!(grid.is_linked(NodeId(2), NodeId(1)));
    assert!(!grid.is_linked(NodeId(0), NodeId(2)));
}
