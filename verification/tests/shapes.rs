use polyomino_solver::{canonicalize, normalize, Polyomino, PolyominoError};

fn rotated_times(cells: &[(usize, usize)], times: usize) -> Vec<(usize, usize)> {
    let mut shape = Polyomino::new(cells.to_vec());
    for _ in 0..times {
        shape.rotate();
    }
    shape.get_blocks()
}

#[test]
fn new_keeps_the_cells_in_order() {
    let shape = Polyomino::new(vec![(3, 1), (0, 0), (3, 1), (2, 5)]);
    assert_eq!(shape.get_blocks(), vec![(3, 1), (0, 0), (3, 1), (2, 5)]);
}

#[test]
fn new_accepts_no_cells() {
    let shape = Polyomino::new(Vec::new());
    assert_eq!(shape.get_blocks(), Vec::<(usize, usize)>::new());
}

#[test]
fn rotate_turns_the_domino_upright() {
    let mut shape = Polyomino::new(vec![(0, 0), (1, 0)]);
    shape.rotate();
    assert_eq!(shape.get_blocks(), vec![(0, 1), (0, 0)]);
}

#[test]
fn rotate_turns_clockwise_and_anchors() {
    // (x, y) goes to (y, -x); the L below then lies in rows -2..=0 and is moved up.
    let mut shape = Polyomino::new(vec![(0, 0), (1, 0), (2, 0), (2, 1)]);
    shape.rotate();
    assert_eq!(shape.get_blocks(), vec![(0, 2), (0, 1), (0, 0), (1, 0)]);
}

#[test]
fn rotate_anchors_a_shape_that_lies_away_from_the_corner() {
    let mut shape = Polyomino::new(vec![(5, 7), (6, 7)]);
    shape.rotate();
    assert_eq!(shape.get_blocks(), vec![(0, 1), (0, 0)]);
}

#[test]
fn rotate_leaves_a_shape_without_cells_alone() {
    let mut shape = Polyomino::new(Vec::new());
    shape.rotate();
    assert_eq!(shape.get_blocks(), Vec::<(usize, usize)>::new());
}

#[test]
fn rotate_keeps_cells_that_are_written_twice() {
    let mut shape = Polyomino::new(vec![(1, 1), (1, 1), (2, 1)]);
    shape.rotate();
    assert_eq!(shape.get_blocks(), vec![(0, 1), (0, 1), (0, 0)]);
}

#[test]
fn four_rotations_restore_an_anchored_shape() {
    let cells = [(1, 0), (0, 1), (1, 1), (1, 2), (2, 2)];
    assert_eq!(rotated_times(&cells, 4), cells.to_vec());
    let mut seen = rotated_times(&cells, 1);
    assert_ne!(seen, cells.to_vec());
    seen = rotated_times(&cells, 2);
    assert_ne!(seen, cells.to_vec());
}

#[test]
fn four_rotations_anchor_a_shape_that_lies_away_from_the_corner() {
    let cells = [(4, 2), (4, 3), (5, 3)];
    assert_eq!(rotated_times(&cells, 4), vec![(0, 0), (0, 1), (1, 1)]);
}

#[test]
fn normalize_moves_to_the_corner_and_sorts() {
    assert_eq!(
        normalize(&[(2, 4), (3, 3), (2, 3)]),
        Ok(vec![(0, 0), (0, 1), (1, 0)])
    );
}

#[test]
fn normalize_anchors_each_axis_by_its_own_least_value() {
    // No cell lies at the least column and the least row at once.
    assert_eq!(normalize(&[(3, 0), (0, 2)]), Ok(vec![(0, 2), (3, 0)]));
}

#[test]
fn normalize_writes_every_cell_once() {
    assert_eq!(
        normalize(&[(1, 1), (2, 1), (1, 1), (2, 1), (1, 1)]),
        Ok(vec![(0, 0), (1, 0)])
    );
}

#[test]
fn normalize_orders_by_column_first() {
    assert_eq!(
        normalize(&[(1, 0), (0, 5), (0, 1), (1, 3)]),
        Ok(vec![(0, 1), (0, 5), (1, 0), (1, 3)])
    );
}

#[test]
fn normalize_of_a_single_cell() {
    assert_eq!(normalize(&[(7, 9)]), Ok(vec![(0, 0)]));
}

#[test]
fn normalize_refuses_no_cells() {
    assert_eq!(normalize(&[]), Err(PolyominoError::InvalidShape));
}

#[test]
fn normalize_twice_is_normalize_once() {
    let once = normalize(&[(4, 4), (5, 4), (5, 6), (4, 4)]).unwrap();
    assert_eq!(normalize(&once), Ok(once.clone()));
}

#[test]
fn canonicalize_refuses_no_cells() {
    assert_eq!(canonicalize(&[]), Err(PolyominoError::InvalidShape));
}

#[test]
fn canonicalize_of_a_single_cell() {
    assert_eq!(canonicalize(&[(3, 8)]), Ok(vec![(0, 0)]));
}

#[test]
fn canonicalize_picks_the_upright_domino() {
    assert_eq!(canonicalize(&[(0, 0), (1, 0)]), Ok(vec![(0, 0), (0, 1)]));
    assert_eq!(canonicalize(&[(0, 0), (0, 1)]), Ok(vec![(0, 0), (0, 1)]));
}

#[test]
fn canonicalize_of_the_bent_tromino() {
    let key = vec![(0, 0), (0, 1), (1, 0)];
    assert_eq!(canonicalize(&[(0, 0), (1, 0), (1, 1)]), Ok(key.clone()));
    assert_eq!(canonicalize(&[(0, 0), (0, 1), (1, 0)]), Ok(key.clone()));
    assert_eq!(canonicalize(&[(5, 5), (5, 6), (6, 6)]), Ok(key.clone()));
    assert_eq!(canonicalize(&[(1, 0), (0, 1), (1, 1)]), Ok(key));
}

#[test]
fn canonicalize_of_the_t_tetromino() {
    assert_eq!(
        canonicalize(&[(0, 0), (1, 0), (2, 0), (1, 1)]),
        Ok(vec![(0, 0), (0, 1), (0, 2), (1, 1)])
    );
}

#[test]
fn canonicalize_tells_mirror_images_apart() {
    let s = canonicalize(&[(0, 0), (1, 0), (1, 1), (2, 1)]);
    let z = canonicalize(&[(1, 0), (2, 0), (0, 1), (1, 1)]);
    assert_eq!(s, Ok(vec![(0, 0), (1, 0), (1, 1), (2, 1)]));
    assert_eq!(z, Ok(vec![(0, 0), (0, 1), (1, 1), (1, 2)]));
    assert_ne!(s, z);
}

#[test]
fn canonicalize_ignores_order_and_repeats() {
    assert_eq!(
        canonicalize(&[(1, 1), (0, 0), (1, 0), (0, 0), (1, 1)]),
        canonicalize(&[(0, 0), (1, 0), (1, 1)])
    );
}

#[test]
fn canonicalize_is_the_same_for_the_four_rotations() {
    let shapes: [&[(usize, usize)]; 4] = [
        &[(0, 0), (1, 0), (2, 0), (2, 1)],
        &[(0, 0), (1, 0), (1, 1), (2, 1), (2, 2)],
        &[(1, 0), (0, 1), (1, 1), (2, 1), (1, 2)],
        &[(0, 0), (3, 1)],
    ];
    for cells in shapes {
        let key = canonicalize(cells).unwrap();
        for times in 0..4 {
            let turned = rotated_times(cells, times);
            assert_eq!(canonicalize(&turned), Ok(key.clone()));
        }
    }
}

#[test]
fn canonicalize_twice_is_canonicalize_once() {
    let shapes: [&[(usize, usize)]; 3] = [
        &[(2, 0), (2, 1), (1, 1), (0, 1)],
        &[(0, 0), (1, 0), (1, 1), (2, 1), (2, 2)],
        &[(4, 4)],
    ];
    for cells in shapes {
        let key = canonicalize(cells).unwrap();
        assert_eq!(canonicalize(&key), Ok(key.clone()));
        assert_eq!(normalize(&key), Ok(key.clone()));
    }
}

#[test]
fn error_messages_differ() {
    let shape = PolyominoError::InvalidShape.message();
    let size = PolyominoError::InvalidSize.message();
    let dimensions = PolyominoError::InvalidDimensions.message();
    assert_eq!(shape, "a shape needs at least one cell");
    assert_eq!(size, "the size of a shape must be at least one");
    assert_eq!(dimensions, "a board needs a positive width and height");
}
