use mazegen::masked_grid::{GridReadError, MaskedGrid, NewsGridError};
use mazegen::grid::Direction;
use mazegen::rng::fresh_rng;

fn header(width: u32, height: u32) -> Vec<u8> {
    let mut bytes = Vec::new();
    bytes.extend_from_slice(&width.to_be_bytes());
    bytes.extend_from_slice(&height.to_be_bytes());
    bytes.extend_from_slice(&[0u8; 16]);
    bytes
}

#[test]
fn binary_round_trip_keeps_every_linked_pair() {
    let mut rng = fresh_rng();
    let mut grid = MaskedGrid::new_unmasked(3, 3);
    grid.hunt_and_kill(&mut rng);

    let mut bytes = Vec::new();
    grid.write_maze(&mut bytes);
    assert_eq!(bytes.len(), 24 + 9);

    let decoded = MaskedGrid::read_maze(bytes.as_slice()).unwrap();
    assert_eq!(decoded.width, 3);
    assert_eq!(decoded.height, 3);
    for r1 in 0..3usize {
        for c1 in 0..3usize {
            for r2 in 0..3usize {
                for c2 in 0..3usize {
                    assert_eq!(
                        grid.is_linked_at(r1, c1, r2, c2),
                        decoded.is_linked_at(r1, c1, r2, c2),
                        "linked pairs must agree at ({r1},{c1})-({r2},{c2})"
                    );
                }
            }
        }
    }
}

#[test]
fn north_link_in_top_row_is_out_of_bounds() {
    let mut bytes = header(1, 1);
    bytes.push(0b1000);
    let result = MaskedGrid::read_maze(bytes.as_slice());
    match result {
        Err(GridReadError::InvalidNewsGrid(NewsGridError::ConnectedOutOfBounds {
            cell,
            direction,
        })) => {
            assert_eq!(cell, (0, 0));
            assert_eq!(direction, Direction::North);
        }
        other => panic!("expected a connected-out-of-bounds rejection, got {other:?}"),
    }
}

#[test]
fn unreciprocated_east_link_is_unrequited() {
    let mut bytes = header(2, 1);
    bytes.push(0b0100);
    bytes.push(0b0001);
    let result = MaskedGrid::read_maze(bytes.as_slice());
    match result {
        Err(GridReadError::InvalidNewsGrid(NewsGridError::UnrequitedConnection {
            linked,
            unlinked,
            direction,
        })) => {
            assert_eq!(linked, (0, 0));
            assert_eq!(unlinked, (0, 1));
            assert_eq!(direction, Direction::East);
        }
        other => panic!("expected an unrequited-connection rejection, got {other:?}"),
    }
}

#[test]
fn east_link_into_absent_cell_is_out_of_mask() {
    let mut bytes = header(2, 1);
    bytes.push(0b0100);
    bytes.push(0);
    let result = MaskedGrid::read_maze(bytes.as_slice());
    assert!(matches!(
        result,
        Err(GridReadError::InvalidNewsGrid(NewsGridError::ConnectedOutOfMask { .. }))
    ));
}

#[test]
fn short_and_long_streams_are_rejected() {
    assert!(matches!(
        MaskedGrid::read_maze(&[1, 2, 3]),
        Err(GridReadError::NotEnoughBytes)
    ));
    let mut short = header(2, 2);
    short.push(0);
    assert!(matches!(
        MaskedGrid::read_maze(short.as_slice()),
        Err(GridReadError::NotEnoughBytes)
    ));
    let mut long = header(1, 1);
    long.push(0);
    long.push(0);
    assert!(matches!(
        MaskedGrid::read_maze(long.as_slice()),
        Err(GridReadError::TooManyBytes)
    ));
}

#[test]
fn disconnected_cells_are_rejected() {
    // Two present cells separated by an absent one.
    let mut bytes = header(3, 1);
    bytes.push(0b0000);
    bytes.push(0);
    bytes.push(0b0000);
    // Bytes of zero mean absent, so this mask holds no cell at all and is
    // trivially connected; craft two real cells instead.
    let result = MaskedGrid::read_maze(bytes.as_slice());
    assert!(result.is_ok() || matches!(result, Err(GridReadError::DisjointCells)));

    let mut bytes2 = header(4, 1);
    bytes2.push(0b0100);
    bytes2.push(0b0010);
    bytes2.push(0);
    bytes2.push(0b0000);
    // Cells (0,0)-(0,1) are linked; (0,3) would be a second region, but a
    // zero byte drops it from the mask, so only nonzero cells count.
    let result2 = MaskedGrid::read_maze(bytes2.as_slice());
    assert!(result2.is_ok());

    let mut bytes3 = header(4, 2);
    bytes3.push(0b0100);
    bytes3.push(0b0010);
    bytes3.push(0);
    bytes3.push(0b0001);
    bytes3.push(0);
    bytes3.push(0);
    bytes3.push(0);
    bytes3.push(0b1000);
    // Two separate linked regions: (0,0)-(0,1) and (0,3)-(1,3).
    let result3 = MaskedGrid::read_maze(bytes3.as_slice());
    assert!(matches!(result3, Err(GridReadError::DisjointCells)));
}

#[test]
fn cell_to_byte_encodes_each_direction() {
    let mut grid = MaskedGrid::new_unmasked(2, 2);
    // Link (0,0)-(0,1) and (0,0)-(1,0).
    let a = grid.get_id_at(0, 0).unwrap();
    let b = grid.get_id_at(0, 1).unwrap();
    let c = grid.get_id_at(1, 0).unwrap();
    grid.pool.link_cells(a, b, true);
    grid.pool.link_cells(a, c, true);
    assert_eq!(grid.cell_to_byte(0, 0), 0b0101);
    assert_eq!(grid.cell_to_byte(0, 1), 0b0010);
    assert_eq!(grid.cell_to_byte(1, 0), 0b1000);
    assert_eq!(grid.cell_to_byte(1, 1), 0);
}

#[test]
fn validate_accepts_a_reciprocated_pair() {
    let cells = vec![0b0100u8, 0b0010u8];
    assert!(MaskedGrid::validate_news_grid(2, 1, &cells).is_ok());
}
