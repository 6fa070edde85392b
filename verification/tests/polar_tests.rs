use mazegen::dijkstra::{DijkstraPad, Distance};
use mazegen::polar_grid::{PolarGrid, RingPosition, RingProfile, RingStep};
use mazegen::rng::fresh_rng;

#[test]
fn test_below() {
    let profile = RingProfile::new(6);
    let center = RingPosition { ring: 0, column: 0 };
    assert_eq!(profile.take_step(center, RingStep::Down), None);

    let ring1: Vec<RingPosition> = (0..profile.ring_cell_count(1))
        .map(|col| RingPosition { ring: 1, column: col })
        .collect();
    for c in ring1 {
        assert_eq!(profile.take_step(c, RingStep::Down), Some(center));
    }

    assert_eq!(
        profile.take_step(RingPosition { ring: 2, column: 5 }, RingStep::Down),
        Some(RingPosition { ring: 1, column: 2 })
    );
    assert_eq!(
        profile.take_step(RingPosition { ring: 3, column: 4 }, RingStep::Down),
        Some(RingPosition { ring: 2, column: 4 })
    );
}

#[test]
fn test_cw_cww() {
    let profile = RingProfile::new(6);

    let ring1: Vec<RingPosition> = (0..profile.ring_cell_count(1))
        .map(|col| RingPosition { ring: 1, column: col })
        .collect();
    for c in ring1 {
        assert_eq!(
            profile.take_step(c, RingStep::CW),
            Some(RingPosition {
                ring: 1,
                column: (c.column + 1) % profile.ring_cell_count(1)
            })
        );
        if c.column == 0 {
            let step = profile.take_step(c, RingStep::CCW);
            let expected = Some(RingPosition {
                ring: 1,
                column: profile.ring_cell_count(1) - 1,
            });
            assert_eq!(step, expected);
        } else {
            let step = profile.take_step(c, RingStep::CCW);
            let expected = Some(RingPosition {
                ring: 1,
                column: (c.column - 1) % profile.ring_cell_count(1),
            });
            assert_eq!(step, expected);
        }
    }
}

#[test]
fn ring_sizes_double_when_rings_widen() {
    let profile = RingProfile::new(6);
    assert_eq!(profile.ring_cell_count(0), 1);
    assert_eq!(profile.ring_cell_count(1), 6);
    assert_eq!(profile.ring_cell_count(2), 12);
    assert_eq!(profile.ring_cell_count(3), 12);
}

#[test]
fn radial_grid_is_connected_and_generates() {
    let mut rng = fresh_rng();
    let mut grid = PolarGrid::new(6, 4);
    assert!(grid.pool.is_adjacently_connected());
    grid.pool.hunt_and_kill(&mut rng);
    let start = grid.pool.get_arbitrary_node_id();
    let distances = DijkstraPad::new(&grid.pool, start).perform();
    for node in &distances.pool.nodes {
        assert!(matches!(node.payload, Distance::Finite(_)));
    }
}
