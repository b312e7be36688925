use polyomino_solver::{canonicalize, generate_pentominoes, PolyominoError};

fn sorted(mut shapes: Vec<Vec<(usize, usize)>>) -> Vec<Vec<(usize, usize)>> {
    shapes.sort();
    shapes
}

fn is_connected(cells: &[(usize, usize)]) -> bool {
    let mut reached = vec![cells[0]];
    let mut next = 0;
    while next < reached.len() {
        let (x, y) = reached[next];
        next += 1;
        for &(cx, cy) in cells {
            let touches = (cx == x && (cy == y + 1 || cy + 1 == y))
                || (cy == y && (cx == x + 1 || cx + 1 == x));
            if touches && !reached.contains(&(cx, cy)) {
                reached.push((cx, cy));
            }
        }
    }
    reached.len() == cells.len()
}

fn connected_of_size(shapes: &[Vec<(usize, usize)>], size: usize) -> Vec<Vec<(usize, usize)>> {
    let kept = shapes
        .iter()
        .filter(|cells| cells.len() == size && is_connected(cells))
        .cloned()
        .collect();
    sorted(kept)
}

#[test]
fn size_zero_is_refused() {
    assert_eq!(generate_pentominoes(0), Err(PolyominoError::InvalidSize));
}

#[test]
fn size_one_is_the_single_cell() {
    assert_eq!(generate_pentominoes(1), Ok(vec![vec![(0, 0)]]));
}

#[test]
fn size_two_holds_every_key_that_one_cell_grows_to() {
    // The new cell may fall on the old one or touch it only at a corner.
    let shapes = sorted(generate_pentominoes(2).unwrap());
    assert_eq!(
        shapes,
        vec![
            vec![(0, 0)],
            vec![(0, 0), (0, 1)],
            vec![(0, 0), (1, 1)],
        ]
    );
}

#[test]
fn size_two_holds_one_domino() {
    let shapes = generate_pentominoes(2).unwrap();
    assert_eq!(connected_of_size(&shapes, 2), vec![vec![(0, 0), (0, 1)]]);
}

#[test]
fn size_three_holds_sixteen_keys() {
    let shapes = sorted(generate_pentominoes(3).unwrap());
    assert_eq!(
        shapes,
        vec![
            vec![(0, 0)],
            vec![(0, 0), (0, 1)],
            vec![(0, 0), (0, 1), (0, 2)],
            vec![(0, 0), (0, 1), (1, 0)],
            vec![(0, 0), (0, 1), (1, 2)],
            vec![(0, 0), (0, 1), (2, 0)],
            vec![(0, 0), (0, 1), (2, 1)],
            vec![(0, 0), (0, 1), (2, 2)],
            vec![(0, 0), (0, 2)],
            vec![(0, 0), (0, 2), (1, 1)],
            vec![(0, 0), (1, 0), (2, 1)],
            vec![(0, 0), (1, 1)],
            vec![(0, 0), (1, 1), (2, 2)],
            vec![(0, 0), (1, 2)],
            vec![(0, 0), (2, 1)],
            vec![(0, 0), (2, 2)],
        ]
    );
}

#[test]
fn size_three_holds_the_straight_and_the_bent_tromino() {
    let shapes = generate_pentominoes(3).unwrap();
    assert_eq!(
        connected_of_size(&shapes, 3),
        vec![
            vec![(0, 0), (0, 1), (0, 2)],
            vec![(0, 0), (0, 1), (1, 0)],
        ]
    );
}

#[test]
fn size_four_holds_the_seven_tetrominoes() {
    let shapes = generate_pentominoes(4).unwrap();
    assert_eq!(shapes.len(), 139);
    assert_eq!(
        connected_of_size(&shapes, 4),
        vec![
            vec![(0, 0), (0, 1), (0, 2), (0, 3)],
            vec![(0, 0), (0, 1), (0, 2), (1, 0)],
            vec![(0, 0), (0, 1), (0, 2), (1, 1)],
            vec![(0, 0), (0, 1), (0, 2), (1, 2)],
            vec![(0, 0), (0, 1), (1, 0), (1, 1)],
            vec![(0, 0), (0, 1), (1, 1), (1, 2)],
            vec![(0, 0), (1, 0), (1, 1), (2, 1)],
        ]
    );
}

#[test]
fn size_five_counts() {
    let shapes = generate_pentominoes(5).unwrap();
    assert_eq!(shapes.len(), 1851);
    let of_five_cells = shapes.iter().filter(|cells| cells.len() == 5).count();
    assert_eq!(of_five_cells, 1129);
    assert_eq!(connected_of_size(&shapes, 5).len(), 17);
}

#[test]
fn size_five_lacks_the_cross() {
    // A cell is only ever added to the right of or below a cell of the shape, and the
    // key of the T has nothing to the left of its bar.
    let cross = canonicalize(&[(1, 0), (0, 1), (1, 1), (2, 1), (1, 2)]).unwrap();
    let shapes = generate_pentominoes(5).unwrap();
    assert!(!shapes.contains(&cross));
    let long_l = canonicalize(&[(0, 0), (0, 1), (0, 2), (0, 3), (1, 3)]).unwrap();
    assert!(shapes.contains(&long_l));
}

#[test]
fn generated_keys_are_distinct() {
    for n in 1..=4 {
        let shapes = sorted(generate_pentominoes(n).unwrap());
        for pair in shapes.windows(2) {
            assert_ne!(pair[0], pair[1]);
        }
    }
}

#[test]
fn generated_keys_are_their_own_keys() {
    for n in 1..=4 {
        for cells in generate_pentominoes(n).unwrap() {
            assert_eq!(canonicalize(&cells), Ok(cells.clone()));
        }
    }
}

#[test]
fn generated_keys_stay_in_the_box() {
    for n in 1..=4 {
        for cells in generate_pentominoes(n).unwrap() {
            assert!(!cells.is_empty() && cells.len() <= n);
            assert!(cells.iter().all(|&(x, y)| x < n && y < n));
        }
    }
}
