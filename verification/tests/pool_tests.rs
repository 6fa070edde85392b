use mazegen::dijkstra::{DijkstraPad, Distance};
use mazegen::pool::{Pool, FrontierSearchResult};

#[test]
fn test1() {
    let mut pool: Pool<()> = Pool::new();
    let node1 = pool.new_node(|_| ());
    let node2 = pool.new_node(|_| ());
    let node3 = pool.new_node(|_| ());

    assert!(!pool.is_adjacently_connected());

    pool.make_adjacent(node1, node2, true);

    assert!(!pool.is_adjacently_connected());

    pool.make_adjacent(node1, node3, true);

    assert!(pool.is_adjacently_connected());
}

#[test]
fn tiny_pools_count_as_connected() {
    let empty: Pool<()> = Pool::new();
    assert!(empty.is_adjacently_connected());

    let mut single: Pool<()> = Pool::new();
    single.new_node(|_| ());
    assert!(single.is_adjacently_connected());
}

#[test]
fn unrelated_pair_is_not_connected() {
    let mut pool: Pool<()> = Pool::new();
    pool.new_node(|_| ());
    pool.new_node(|_| ());
    assert!(!pool.is_adjacently_connected());
}

#[test]
fn adjacent_pair_becomes_connected() {
    let mut pool: Pool<()> = Pool::new();
    let a = pool.new_node(|_| ());
    let b = pool.new_node(|_| ());
    assert!(!pool.is_adjacently_connected());
    pool.make_adjacent(a, b, true);
    assert!(pool.is_adjacently_connected());
}

#[test]
fn linking_requires_and_respects_adjacency() {
    let mut pool: Pool<u32> = Pool::new();
    let a = pool.new_node(|_| 10);
    let b = pool.new_node(|_| 20);
    pool.make_adjacent(a, b, true);
    assert!(!pool.is_linked(a, b));
    pool.link_cells(a, b, true);
    assert!(pool.is_linked(a, b));
    assert!(pool.is_linked(b, a));
    pool.unlink_cells(a, b, true);
    assert!(!pool.is_linked(a, b));
    assert!(!pool.is_linked(b, a));
}

#[test]
fn walls_are_adjacencies_without_links() {
    let mut pool: Pool<()> = Pool::new();
    let a = pool.new_node(|_| ());
    let b = pool.new_node(|_| ());
    let c = pool.new_node(|_| ());
    pool.make_adjacent(a, b, true);
    pool.make_adjacent(a, c, true);
    pool.link_cells(a, b, true);
    let walls = pool.walls_of(a);
    assert_eq!(walls, vec![c]);
    let passages = pool.passages_of(a);
    assert_eq!(passages, vec![b]);
    let neighborhood = pool.neighborhood_of(a);
    assert_eq!(neighborhood.len(), 2);
}

#[test]
fn frontier_scan_finds_the_boundary() {
    let mut pool: Pool<()> = Pool::new();
    let a = pool.new_node(|_| ());
    let b = pool.new_node(|_| ());
    pool.make_adjacent(a, b, true);
    let visited = vec![true, false];
    match pool.scan_frontier(&visited) {
        FrontierSearchResult::Found { unvisited, visited: root } => {
            assert_eq!(unvisited, b);
            assert_eq!(root, a);
        }
        FrontierSearchResult::NoFrontier => panic!("a frontier exists"),
    }
    let all_visited = vec![true, true];
    assert!(matches!(
        pool.scan_frontier(&all_visited),
        FrontierSearchResult::NoFrontier
    ));
}

#[test]
fn furthest_pair_on_a_tree_spans_the_diameter() {
    // A 2 by 2 grid fully linked in a known spanning-tree shape:
    // 0 - 1
    // |
    // 2 - 3
    // The diameter runs from 1 to 3 with link distance 3.
    let mut pool: Pool<()> = Pool::new();
    let n0 = pool.new_node(|_| ());
    let n1 = pool.new_node(|_| ());
    let n2 = pool.new_node(|_| ());
    let n3 = pool.new_node(|_| ());
    pool.make_adjacent(n0, n1, true);
    pool.make_adjacent(n0, n2, true);
    pool.make_adjacent(n1, n3, true);
    pool.make_adjacent(n2, n3, true);
    pool.link_cells(n0, n1, true);
    pool.link_cells(n0, n2, true);
    pool.link_cells(n2, n3, true);

    let (x, y) = pool.furthest_pair().unwrap();
    let from_x = DijkstraPad::new(&pool, x).perform();
    assert_eq!(
        from_x.pool.get(y).payload.as_finite(),
        Some(3),
        "the tree's diameter is 3"
    );
}

#[test]
fn debug_connect_all_opens_every_wall() {
    let mut pool: Pool<()> = Pool::new();
    let a = pool.new_node(|_| ());
    let b = pool.new_node(|_| ());
    let c = pool.new_node(|_| ());
    pool.make_adjacent(a, b, true);
    pool.make_adjacent(b, c, true);
    pool.debug_connect_all();
    assert!(pool.is_linked(a, b) && pool.is_linked(b, a));
    assert!(pool.is_linked(b, c) && pool.is_linked(c, b));
    assert!(!pool.is_linked(a, c));
}

#[test]
fn distance_to_self_is_zero_and_unreachable_is_infinite() {
    let mut pool: Pool<()> = Pool::new();
    let a = pool.new_node(|_| ());
    let _b = pool.new_node(|_| ());
    let distances = DijkstraPad::new(&pool, a).perform();
    assert_eq!(distances.pool.get(a).payload.as_finite(), Some(0));
    assert!(matches!(
        distances.pool.nodes[1].payload,
        Distance::Infinite
    ));
}

#[test]
fn infinite_plus_anything_is_infinite() {
    assert!(matches!(Distance::infinite().plus(7), Distance::Infinite));
    assert_eq!(Distance::finite(2).plus(3).as_finite(), Some(5));
    assert_eq!(Distance::finite(0).as_finite(), Some(0));
    assert_eq!(Distance::infinite().as_finite(), None);
}

#[test]
fn bfs_distances_are_shortest_path_lengths() {
    // A path of passages 0 - 1 - 2 with a detached node 3.
    let mut pool: Pool<()> = Pool::new();
    let n0 = pool.new_node(|_| ());
    let n1 = pool.new_node(|_| ());
    let n2 = pool.new_node(|_| ());
    let _n3 = pool.new_node(|_| ());
    pool.make_adjacent(n0, n1, true);
    pool.make_adjacent(n1, n2, true);
    pool.make_adjacent(n0, n2, true);
    pool.link_cells(n0, n1, true);
    pool.link_cells(n1, n2, true);
    let distances = DijkstraPad::new(&pool, n0).perform();
    assert_eq!(distances.pool.get(n0).payload.as_finite(), Some(0));
    assert_eq!(distances.pool.get(n1).payload.as_finite(), Some(1));
    assert_eq!(distances.pool.get(n2).payload.as_finite(), Some(2));
    assert_eq!(distances.pool.nodes[3].payload.as_finite(), None);

    // A direct passage shortens the distance to one.
    pool.link_cells(n0, n2, true);
    let closer = DijkstraPad::new(&pool, n0).perform();
    assert_eq!(closer.pool.get(n2).payload.as_finite(), Some(1));
}
