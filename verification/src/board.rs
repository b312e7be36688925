//! A rectangular board of cells that shapes are placed on.

use vstd::prelude::*;
use crate::error::PolyominoError;
use crate::gen_polyominos::Polyomino;
use crate::plane::{points, shifted};

verus! {

/// A grid of `width` by `height` cells, each empty or occupied.
pub struct Board {
    width: usize,
    height: usize,
    grid: Vec<bool>,
}

impl View for Board {
    type V = Set<(int, int)>;

    /// The occupied cells, as `(column, row)`.
    closed spec fn view(&self) -> Set<(int, int)> {
        Set::new(|c: (int, int)| self.occupied(c.0, c.1))
    }
}

/// On a grid of `w` columns, a cell inside a grid of `h` rows has its place in the
/// row-by-row list of `w * h` cells.
proof fn lemma_index_in_grid(w: int, h: int, x: int, y: int)
    requires
        0 <= x < w,
        0 <= y < h,
    ensures
        0 <= y * w + x < w * h,
        0 <= y * w,
{
    assert(y * w + x < w * h && 0 <= y * w) by (nonlinear_arith)
        requires
            0 <= x < w,
            0 <= y < h,
    ;
}

/// Two cells of a grid of `w` columns with the same place in the row-by-row list are the
/// same cell.
proof fn lemma_index_injective(w: int, x1: int, y1: int, x2: int, y2: int)
    requires
        0 <= x1 < w,
        0 <= x2 < w,
        y1 * w + x1 == y2 * w + x2,
    ensures
        x1 == x2,
        y1 == y2,
{
    assert(y1 == y2) by (nonlinear_arith)
        requires
            0 <= x1 < w,
            0 <= x2 < w,
            y1 * w + x1 == y2 * w + x2,
    ;
}

/// Bounds: a shape does not fit where one of its cells would fall outside the grid.
pub proof fn lemma_outside_never_fits(board: Board, x: int, y: int, shape: Seq<(int, int)>, i: int)
    requires
        0 <= i < shape.len(),
        !(0 <= x + shape[i].0 < board.columns() && 0 <= y + shape[i].1 < board.rows()),
    ensures
        !board.fits(x, y, shape),
{
    assert(!board.is_free(x + shape[i].0, y + shape[i].1));
}

/// Bounds, at the right edge: the cell one column to the right of the last column is
/// outside, so a shape that holds the offset `(1, 0)` does not fit in the last column.
pub proof fn lemma_right_edge_never_fits(board: Board, y: int)
    ensures
        !board.fits(board.columns() - 1, y, seq![(1int, 0int)]),
{
    lemma_outside_never_fits(board, board.columns() - 1, y, seq![(1int, 0int)], 0);
}

/// Atomicity: a shape of which some cell is occupied or outside does not fit, whatever
/// its other cells are.
pub proof fn lemma_one_blocked_cell_never_fits(
    board: Board,
    x: int,
    y: int,
    shape: Seq<(int, int)>,
    i: int,
)
    requires
        0 <= i < shape.len(),
        !board.is_free(x + shape[i].0, y + shape[i].1),
    ensures
        !board.fits(x, y, shape),
{
}

impl Board {
    #[verifier::type_invariant]
    spec fn well_formed(self) -> bool {
        &&& self.width > 0
        &&& self.height > 0
        &&& self.grid@.len() == self.width * self.height
    }

    /// The number of columns.
    pub closed spec fn columns(self) -> int {
        self.width as int
    }

    /// The number of rows.
    pub closed spec fn rows(self) -> int {
        self.height as int
    }

    /// Whether the cell in column `x` and row `y` lies on the board and is occupied.
    pub closed spec fn occupied(self, x: int, y: int) -> bool {
        &&& 0 <= x < self.width
        &&& 0 <= y < self.height
        &&& self.grid@[y * self.width + x]
    }

    /// Whether the cell in column `x` and row `y` lies on the board and is empty.
    pub open spec fn is_free(self, x: int, y: int) -> bool {
        &&& 0 <= x < self.columns()
        &&& 0 <= y < self.rows()
        &&& !self@.contains((x, y))
    }

    /// Whether every cell of `shape`, moved by `(x, y)`, lies on the board and is empty.
    pub open spec fn fits(self, x: int, y: int, shape: Seq<(int, int)>) -> bool {
        forall|i: int| 0 <= i < shape.len() ==> self.is_free(x + shape[i].0, y + shape[i].1)
    }

    /// A board of the given size with every cell empty. A width or height of zero is
    /// refused.
    pub fn new(width: usize, height: usize) -> (result: Result<Board, PolyominoError>)
        requires
            width * height <= usize::MAX,
        ensures
            match result {
                Ok(board) => {
                    &&& width > 0
                    &&& height > 0
                    &&& board.columns() == width
                    &&& board.rows() == height
                    &&& board@ == Set::<(int, int)>::empty()
                },
                Err(e) => (width == 0 || height == 0) && e == PolyominoError::InvalidDimensions,
            },
    {
        if width == 0 || height == 0 {
            return Err(PolyominoError::InvalidDimensions);
        }
        let cells = width * height;
        let mut grid: Vec<bool> = Vec::new();
        let mut i: usize = 0;
        while i < cells
            invariant
                0 <= i <= cells,
                grid@.len() == i,
                forall|k: int| 0 <= k < i ==> !grid@[k],
            decreases cells - i,
        {
            grid.push(false);
            i = i + 1;
        }
        let board = Board { width, height, grid };
        proof {
            assert forall|c: (int, int)| !board@.contains(c) by {
                if 0 <= c.0 < width && 0 <= c.1 < height {
                    lemma_index_in_grid(width as int, height as int, c.0, c.1);
                }
            }
            assert(board@ =~= Set::<(int, int)>::empty());
        }
        Ok(board)
    }

    /// Whether the cell in column `x` and row `y` lies on the board and is empty.
    fn cell_is_free(&self, x: usize, dx: usize, y: usize, dy: usize) -> (free: bool)
        ensures
            free == self.is_free(x + dx, y + dy),
    {
        proof {
            use_type_invariant(self);
        }
        if x >= self.width || dx >= self.width - x || y >= self.height || dy >= self.height - y {
            return false;
        }
        proof {
            lemma_index_in_grid(self.width as int, self.height as int, x + dx, y + dy);
            assert(self.grid.len() == self.grid@.len());
        }
        !self.grid[(y + dy) * self.width + (x + dx)]
    }

    /// Whether `polyomino` can be placed with its corner at column `x` and row `y`: every
    /// cell of it then lies on the board and is empty. The board is not changed.
    pub fn can_place(&self, x: usize, y: usize, polyomino: &Polyomino) -> (fits: bool)
        ensures
            fits == self.fits(x as int, y as int, points(polyomino@)),
    {
        let cells = polyomino.cells();
        let ghost shape = points(polyomino@);
        let mut i: usize = 0;
        while i < cells.len()
            invariant
                0 <= i <= cells@.len(),
                cells@ == polyomino@,
                shape == points(polyomino@),
                forall|k: int| 0 <= k < i ==> self.is_free(x + shape[k].0, y + shape[k].1),
            decreases cells@.len() - i,
        {
            let (dx, dy) = cells[i];
            assert(shape[i as int] == (dx as int, dy as int));
            if !self.cell_is_free(x, dx, y, dy) {
                return false;
            }
            i = i + 1;
        }
        true
    }

    /// Places `polyomino` with its corner at column `x` and row `y` if it fits there, and
    /// says whether it did. Either every cell of the shape becomes occupied or the board
    /// stays as it was.
    pub fn place_polyomino(&mut self, x: usize, y: usize, polyomino: &Polyomino) -> (placed: bool)
        ensures
            placed == old(self).fits(x as int, y as int, points(polyomino@)),
            final(self).columns() == old(self).columns(),
            final(self).rows() == old(self).rows(),
            placed ==> final(self)@ == old(self)@.union(
                shifted(points(polyomino@), x as int, y as int).to_set(),
            ),
            !placed ==> final(self)@ == old(self)@,
    {
        if !self.can_place(x, y, polyomino) {
            return false;
        }
        proof {
            use_type_invariant(&*self);
        }
        let cells = polyomino.cells();
        let ghost shape = points(polyomino@);
        let ghost target = shifted(shape, x as int, y as int);
        let mut i: usize = 0;
        while i < cells.len()
            invariant
                0 <= i <= cells@.len(),
                cells@ == polyomino@,
                shape == points(polyomino@),
                target == shifted(shape, x as int, y as int),
                self.width == old(self).width,
                self.height == old(self).height,
                self.width > 0,
                self.height > 0,
                self.grid@.len() == self.width * self.height,
                forall|k: int|
                    0 <= k < shape.len() ==> 0 <= (#[trigger] target[k]).0 < self.width && 0
                        <= target[k].1 < self.height,
                forall|c: (int, int)|
                    self@.contains(c) <==> (old(self)@.contains(c) || exists|k: int|
                        0 <= k < i && #[trigger] target[k] == c),
            decreases cells@.len() - i,
        {
            let (dx, dy) = cells[i];
            let ghost before = self@;
            let ghost grid_before = self.grid@;
            proof {
                assert(shape[i as int] == (dx as int, dy as int));
                assert(target[i as int] == (x + dx, y + dy));
                lemma_index_in_grid(self.width as int, self.height as int, x + dx, y + dy);
                assert(self.grid.len() == self.grid@.len());
            }
            let at = (y + dy) * self.width + (x + dx);
            self.grid[at] = true;
            proof {
                assert forall|c: (int, int)|
                    self@.contains(c) <==> (old(self)@.contains(c) || exists|k: int|
                        0 <= k < i + 1 && #[trigger] target[k] == c) by {
                    if 0 <= c.0 < self.width && 0 <= c.1 < self.height {
                        lemma_index_in_grid(self.width as int, self.height as int, c.0, c.1);
                        if c.1 * self.width + c.0 == at {
                            lemma_index_injective(self.width as int, c.0, c.1, x + dx, y + dy);
                            assert(target[i as int] == c);
                        } else {
                            assert(self.grid@[c.1 * self.width + c.0] == grid_before[c.1
                                * self.width + c.0]);
                            assert(self@.contains(c) == before.contains(c));
                        }
                    }
                    if before.contains(c) {
                        assert(self@.contains(c));
                    }
                    if exists|k: int| 0 <= k < i + 1 && #[trigger] target[k] == c {
                        let k = choose|k: int| 0 <= k < i + 1 && #[trigger] target[k] == c;
                        if k < i {
                            assert(before.contains(c));
                        }
                    }
                }
            }
            i = i + 1;
        }
        proof {
            assert forall|c: (int, int)|
                self@.contains(c) <==> old(self)@.union(target.to_set()).contains(c) by {
                if target.contains(c) {
                    let k = choose|k: int| 0 <= k < target.len() && target[k] == c;
                    assert(target[k] == c);
                }
            }
            assert(self@ =~= old(self)@.union(target.to_set()));
        }
        true
    }

    /// Empties every cell.
    pub fn clear(&mut self)
        ensures
            final(self).columns() == old(self).columns(),
            final(self).rows() == old(self).rows(),
            final(self)@ == Set::<(int, int)>::empty(),
    {
        proof {
            use_type_invariant(&*self);
        }
        let mut i: usize = 0;
        while i < self.grid.len()
            invariant
                0 <= i <= self.grid@.len(),
                self.width == old(self).width,
                self.height == old(self).height,
                self.width > 0,
                self.height > 0,
                self.grid@.len() == self.width * self.height,
                forall|k: int| 0 <= k < i ==> !self.grid@[k],
            decreases self.grid@.len() - i,
        {
            self.grid[i] = false;
            i = i + 1;
        }
        proof {
            assert forall|c: (int, int)| !self@.contains(c) by {
                if 0 <= c.0 < self.width && 0 <= c.1 < self.height {
                    lemma_index_in_grid(self.width as int, self.height as int, c.0, c.1);
                }
            }
            assert(self@ =~= Set::<(int, int)>::empty());
        }
    }
}

} // verus!
