use polyomino_solver::{Board, Polyomino, PolyominoError};

fn shape(cells: &[(usize, usize)]) -> Polyomino {
    Polyomino::new(cells.to_vec())
}

/// The cells of a `width` by `height` board that a single cell cannot be placed on.
fn occupied(board: &Board, width: usize, height: usize) -> Vec<(usize, usize)> {
    let cell = shape(&[(0, 0)]);
    let mut found = Vec::new();
    for y in 0..height {
        for x in 0..width {
            if !board.can_place(x, y, &cell) {
                found.push((x, y));
            }
        }
    }
    found
}

#[test]
fn new_board_is_empty() {
    let board = Board::new(4, 2).ok().unwrap();
    assert_eq!(occupied(&board, 4, 2), Vec::<(usize, usize)>::new());
}

#[test]
fn new_refuses_a_width_of_zero() {
    assert_eq!(Board::new(0, 3).err(), Some(PolyominoError::InvalidDimensions));
}

#[test]
fn new_refuses_a_height_of_zero() {
    assert_eq!(Board::new(3, 0).err(), Some(PolyominoError::InvalidDimensions));
    assert_eq!(Board::new(0, 0).err(), Some(PolyominoError::InvalidDimensions));
}

#[test]
fn place_then_clear() {
    let mut board = Board::new(3, 3).ok().unwrap();
    let domino = shape(&[(0, 0), (1, 0)]);
    assert!(board.place_polyomino(0, 0, &domino));
    assert_eq!(occupied(&board, 3, 3), vec![(0, 0), (1, 0)]);
    assert!(!board.can_place(0, 0, &domino));
    board.clear();
    assert!(board.can_place(0, 0, &domino));
    assert_eq!(occupied(&board, 3, 3), Vec::<(usize, usize)>::new());
}

#[test]
fn place_moves_the_shape_by_the_position() {
    let mut board = Board::new(4, 3).ok().unwrap();
    assert!(board.place_polyomino(1, 1, &shape(&[(0, 0), (1, 0), (2, 1)])));
    assert_eq!(occupied(&board, 4, 3), vec![(1, 1), (2, 1), (3, 2)]);
}

#[test]
fn place_on_a_board_that_is_not_square() {
    // Column and row must not be mixed up: (4, 1) lies on a 5 by 2 board, (1, 4) does not.
    let mut board = Board::new(5, 2).ok().unwrap();
    let cell = shape(&[(0, 0)]);
    assert!(!board.can_place(1, 4, &cell));
    assert!(board.place_polyomino(4, 1, &cell));
    assert_eq!(occupied(&board, 5, 2), vec![(4, 1)]);
}

#[test]
fn place_is_all_or_nothing_on_overlap() {
    let mut board = Board::new(3, 3).ok().unwrap();
    assert!(board.place_polyomino(1, 0, &shape(&[(0, 0), (0, 1)])));
    let before = occupied(&board, 3, 3);
    assert_eq!(before, vec![(1, 0), (1, 1)]);
    // The first two cells are free, the third is taken.
    let bar = shape(&[(0, 0), (0, 1), (1, 1)]);
    assert!(!board.can_place(0, 0, &bar));
    assert!(!board.place_polyomino(0, 0, &bar));
    assert_eq!(occupied(&board, 3, 3), before);
}

#[test]
fn place_is_all_or_nothing_at_the_edge() {
    let mut board = Board::new(3, 3).ok().unwrap();
    let bar = shape(&[(0, 0), (1, 0), (2, 0)]);
    assert!(!board.place_polyomino(1, 2, &bar));
    assert_eq!(occupied(&board, 3, 3), Vec::<(usize, usize)>::new());
    assert!(board.place_polyomino(0, 2, &bar));
    assert_eq!(occupied(&board, 3, 3), vec![(0, 2), (1, 2), (2, 2)]);
}

#[test]
fn place_keeps_what_was_placed_before() {
    let mut board = Board::new(3, 3).ok().unwrap();
    assert!(board.place_polyomino(0, 0, &shape(&[(0, 0), (1, 0)])));
    assert!(board.place_polyomino(1, 1, &shape(&[(0, 0), (0, 1), (1, 1)])));
    assert_eq!(
        occupied(&board, 3, 3),
        vec![(0, 0), (1, 0), (1, 1), (1, 2), (2, 2)]
    );
}

#[test]
fn can_place_refuses_a_cell_right_of_the_last_column() {
    let board = Board::new(3, 3).ok().unwrap();
    assert!(!board.can_place(2, 0, &shape(&[(1, 0)])));
    assert!(board.can_place(1, 0, &shape(&[(1, 0)])));
    let wide = Board::new(7, 1).ok().unwrap();
    assert!(!wide.can_place(6, 0, &shape(&[(1, 0)])));
    assert!(wide.can_place(5, 0, &shape(&[(1, 0)])));
}

#[test]
fn can_place_refuses_a_cell_below_the_last_row() {
    let board = Board::new(3, 2).ok().unwrap();
    assert!(!board.can_place(0, 1, &shape(&[(0, 1)])));
    assert!(!board.can_place(0, 2, &shape(&[(0, 0)])));
    assert!(board.can_place(0, 0, &shape(&[(0, 1)])));
}

#[test]
fn can_place_refuses_positions_beyond_the_range_of_the_machine() {
    let board = Board::new(3, 3).ok().unwrap();
    assert!(!board.can_place(usize::MAX, 0, &shape(&[(1, 0)])));
    assert!(!board.can_place(0, usize::MAX, &shape(&[(0, 1)])));
    assert!(!board.can_place(1, 1, &shape(&[(usize::MAX, usize::MAX)])));
}

#[test]
fn can_place_does_not_change_the_board() {
    let mut board = Board::new(2, 2).ok().unwrap();
    assert!(board.place_polyomino(0, 0, &shape(&[(0, 0)])));
    let square = shape(&[(0, 0), (1, 0), (0, 1), (1, 1)]);
    assert!(!board.can_place(0, 0, &square));
    assert!(board.can_place(1, 0, &shape(&[(0, 0), (0, 1)])));
    assert_eq!(occupied(&board, 2, 2), vec![(0, 0)]);
}

#[test]
fn a_shape_without_cells_fits_anywhere() {
    let mut board = Board::new(2, 2).ok().unwrap();
    let nothing = shape(&[]);
    assert!(board.can_place(9, 9, &nothing));
    assert!(board.place_polyomino(9, 9, &nothing));
    assert_eq!(occupied(&board, 2, 2), Vec::<(usize, usize)>::new());
}

#[test]
fn a_shape_may_name_a_cell_twice() {
    let mut board = Board::new(2, 2).ok().unwrap();
    assert!(board.place_polyomino(0, 1, &shape(&[(1, 0), (1, 0)])));
    assert_eq!(occupied(&board, 2, 2), vec![(1, 1)]);
}

#[test]
fn clear_keeps_the_size() {
    let mut board = Board::new(2, 3).ok().unwrap();
    assert!(board.place_polyomino(0, 0, &shape(&[(0, 0), (1, 0), (0, 1), (1, 1), (0, 2), (1, 2)])));
    assert_eq!(occupied(&board, 2, 3).len(), 6);
    board.clear();
    assert_eq!(occupied(&board, 2, 3), Vec::<(usize, usize)>::new());
    assert!(!board.can_place(2, 0, &shape(&[(0, 0)])));
    assert!(!board.can_place(0, 3, &shape(&[(0, 0)])));
}
