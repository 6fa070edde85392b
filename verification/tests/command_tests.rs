use mazegen::cli::{Command, CommandBuilder, Destination, Source};
use mazegen::masked_grid::stripes_mask;
use mazegen::maze::{Algorithm, Maze};
use mazegen::rng::fresh_rng;

#[test]
fn builder_needs_both_halves() {
    assert!(CommandBuilder::new().build().is_none());
    assert!(CommandBuilder::new()
        .source(Source::unmasked(4, 4))
        .build()
        .is_none());
    assert!(CommandBuilder::new()
        .destination(Destination::mazefile(String::from("out.maze")))
        .build()
        .is_none());
    let command: Command = CommandBuilder::new()
        .source(Source::mazefile(String::from("in.maze")))
        .destination(Destination::image(800, 8, String::from("out.png")))
        .build()
        .unwrap();
    assert!(matches!(command.source, Source::Mazefile { .. }));
    assert!(matches!(
        command.destination,
        Destination::Image { image_width: 800, padding: 8, .. }
    ));
}

#[test]
fn source_constructors_pick_their_variant() {
    assert!(matches!(
        Source::input_mask(String::from("mask.png")),
        Source::FromInputMask { .. }
    ));
    assert!(matches!(
        Source::unmasked_radial(6, 5),
        Source::UnmaskedRadial { starting_branch_count: 6, ring_count: 5 }
    ));
}

#[test]
fn maze_constructors_generate_and_serialize() {
    let mut rng = fresh_rng();
    let maze = Maze::new_unmasked_cartesian(3, 3, Algorithm::HuntAndKill, &mut rng).unwrap();
    let mut bytes = Vec::new();
    maze.write_maze(&mut bytes);
    assert_eq!(bytes.len(), 24 + 9);

    let radial = Maze::new_unmasked_radial(6, 3, Algorithm::AldousBroder, &mut rng).unwrap();
    assert!(matches!(radial, Maze::RadialMaze { .. }));
}

#[test]
fn stripes_mask_follows_its_formula() {
    assert_eq!(stripes_mask(10, 10, 4, 0, 0), (10usize % 4) < 2);
    assert_eq!(stripes_mask(10, 10, 4, 2, 1), (9usize % 4) < 2);
    assert!(!stripes_mask(10, 10, 1, 0, 0));
}
