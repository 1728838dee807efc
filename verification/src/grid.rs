//! Coordinate arithmetic on a rectangular grid: linear cell indices,
//! row/column conversion, and boundary predicates for the four directions.

use vstd::prelude::*;
use vstd::arithmetic::div_mod::{lemma_fundamental_div_mod, lemma_fundamental_div_mod_converse};

verus! {

/// Why a maze could not be constructed.
#[derive(Clone, Copy, Debug, PartialEq, Eq, Structural)]
pub enum MazeError {
    /// `width` or `height` was zero.
    ZeroDimension,
    /// `width * height` does not fit in `usize`.
    GridTooLarge,
    /// The code string holds a byte that is not a lowercase hex digit.
    InvalidHexDigit,
}

/// One of the four cardinal directions a passage can point in.
#[derive(Clone, Copy, Debug, PartialEq, Eq, Structural)]
pub enum Direction {
    Left,
    Right,
    Up,
    Down,
}

impl Direction {
    /// The fixed bit weight of this direction in a connectivity mask:
    /// Left is bit 3, Right bit 2, Up bit 1, Down bit 0.
    pub open spec fn bit(self) -> u8 {
        match self {
            Direction::Left => 8,
            Direction::Right => 4,
            Direction::Up => 2,
            Direction::Down => 1,
        }
    }

    pub fn bit_for(self) -> (r: u8)
        ensures
            r == self.bit(),
    {
        match self {
            Direction::Left => 8,
            Direction::Right => 4,
            Direction::Up => 2,
            Direction::Down => 1,
        }
    }

    /// The direction whose index delta is the arithmetic negation of this one's.
    pub open spec fn opposite_spec(self) -> Direction {
        match self {
            Direction::Left => Direction::Right,
            Direction::Right => Direction::Left,
            Direction::Up => Direction::Down,
            Direction::Down => Direction::Up,
        }
    }

    pub fn opposite(self) -> (r: Direction)
        ensures
            r == self.opposite_spec(),
    {
        match self {
            Direction::Left => Direction::Right,
            Direction::Right => Direction::Left,
            Direction::Up => Direction::Down,
            Direction::Down => Direction::Up,
        }
    }
}

pub open spec fn dist1(a: int, b: int) -> int {
    if a >= b {
        a - b
    } else {
        b - a
    }
}

/// Taxicab distance between two cells, by rows and columns.
pub open spec fn manhattan(g: Grid, i: int, j: int) -> int {
    dist1(g.row_of(i), g.row_of(j)) + dist1(g.col_of(i), g.col_of(j))
}

/// A rectangular grid of `width * height` cells, addressed by a linear
/// index `i` with `col = i % width` and `row = i / width`.
#[derive(Clone, Copy, Debug, PartialEq, Eq, Structural)]
pub struct Grid {
    pub width: usize,
    pub height: usize,
}

impl Grid {
    pub open spec fn area(self) -> int {
        self.width * self.height
    }

    /// A usable grid: both dimensions positive and the area representable.
    pub open spec fn wf(self) -> bool {
        &&& self.width >= 1
        &&& self.height >= 1
        &&& self.width * self.height <= usize::MAX
    }

    pub open spec fn row_of(self, i: int) -> int {
        i / (self.width as int)
    }

    pub open spec fn col_of(self, i: int) -> int {
        i % (self.width as int)
    }

    /// Whether one step from cell `i` in direction `d` stays on the grid.
    /// This is a pure boundary check, independent of any maze.
    pub open spec fn can_step(self, i: int, d: Direction) -> bool {
        match d {
            Direction::Left => self.col_of(i) > 0,
            Direction::Right => self.col_of(i) < self.width - 1,
            Direction::Up => i >= self.width,
            Direction::Down => i < self.area() - self.width,
        }
    }

    /// The cell one step from `i` in direction `d`.
    pub open spec fn step(self, i: int, d: Direction) -> int {
        match d {
            Direction::Left => i - 1,
            Direction::Right => i + 1,
            Direction::Up => i - self.width,
            Direction::Down => i + self.width,
        }
    }

    /// Builds a grid, rejecting dimensions the data model does not allow.
    pub fn new(width: usize, height: usize) -> (r: Result<Grid, MazeError>)
        ensures
            match r {
                Ok(g) => {
                    &&& g.width == width
                    &&& g.height == height
                    &&& g.wf()
                },
                Err(e) => {
                    &&& (width == 0 || height == 0 || width * height > usize::MAX)
                    &&& (e == MazeError::ZeroDimension <==> (width == 0 || height == 0))
                    &&& (e == MazeError::GridTooLarge <==> !(width == 0 || height == 0))
                },
            },
    {
        if width == 0 || height == 0 {
            Err(MazeError::ZeroDimension)
        } else if width > usize::MAX / height {
            proof {
                assert(width * height > usize::MAX) by (nonlinear_arith)
                    requires
                        height >= 1,
                        width > usize::MAX as int / height as int,
                ;
            }
            Err(MazeError::GridTooLarge)
        } else {
            proof {
                assert(width * height <= usize::MAX) by (nonlinear_arith)
                    requires
                        height >= 1,
                        width <= usize::MAX as int / height as int,
                ;
            }
            Ok(Grid { width, height })
        }
    }

    pub fn area_exec(&self) -> (r: usize)
        requires
            self.wf(),
        ensures
            r == self.area(),
    {
        self.width * self.height
    }

    /// Decomposes an in-range index into its row and column.
    pub proof fn lemma_row_col(self, i: int)
        requires
            self.wf(),
            0 <= i < self.area(),
        ensures
            i == self.row_of(i) * self.width + self.col_of(i),
            0 <= self.col_of(i) < self.width,
            0 <= self.row_of(i) < self.height,
    {
        let w = self.width as int;
        let h = self.height as int;
        lemma_fundamental_div_mod(i, w);
        assert((i / w) * w == w * (i / w)) by (nonlinear_arith);
        assert(0 <= i % w < w) by (nonlinear_arith)
            requires
                w >= 1,
                i >= 0,
        ;
        assert(0 <= i / w < h) by (nonlinear_arith)
            requires
                w >= 1,
                0 <= i < w * h,
                i == w * (i / w) + i % w,
                0 <= i % w < w,
        ;
    }

    /// Stepping off `i` in a permitted direction lands on the grid, and
    /// stepping back in the opposite direction returns to `i`.
    pub proof fn lemma_step_reverse(self, i: int, d: Direction)
        requires
            self.wf(),
            0 <= i < self.area(),
            self.can_step(i, d),
        ensures
            0 <= self.step(i, d) < self.area(),
            self.can_step(self.step(i, d), d.opposite_spec()),
            self.step(self.step(i, d), d.opposite_spec()) == i,
            self.step(i, d) != i,
    {
        let w = self.width as int;
        let h = self.height as int;
        let r = self.row_of(i);
        let c = self.col_of(i);
        self.lemma_row_col(i);
        match d {
            Direction::Left => {
                lemma_fundamental_div_mod_converse(i - 1, w, r, c - 1);
            },
            Direction::Right => {
                lemma_fundamental_div_mod_converse(i + 1, w, r, c + 1);
                assert(i + 1 < w * h) by (nonlinear_arith)
                    requires
                        i == r * w + c,
                        c < w - 1,
                        r < h,
                        w >= 1,
                ;
            },
            Direction::Up => {},
            Direction::Down => {},
        }
    }

    /// How one step changes the row/column decomposition.
    pub proof fn lemma_step_row_col(self, i: int, d: Direction)
        requires
            self.wf(),
            0 <= i < self.area(),
            self.can_step(i, d),
        ensures
            0 <= self.step(i, d) < self.area(),
            match d {
                Direction::Left => self.row_of(self.step(i, d)) == self.row_of(i)
                    && self.col_of(self.step(i, d)) == self.col_of(i) - 1,
                Direction::Right => self.row_of(self.step(i, d)) == self.row_of(i)
                    && self.col_of(self.step(i, d)) == self.col_of(i) + 1,
                Direction::Up => self.row_of(self.step(i, d)) == self.row_of(i) - 1
                    && self.col_of(self.step(i, d)) == self.col_of(i),
                Direction::Down => self.row_of(self.step(i, d)) == self.row_of(i) + 1
                    && self.col_of(self.step(i, d)) == self.col_of(i),
            },
    {
        let w = self.width as int;
        let r = self.row_of(i);
        let c = self.col_of(i);
        self.lemma_row_col(i);
        self.lemma_step_reverse(i, d);
        match d {
            Direction::Left => {
                lemma_fundamental_div_mod_converse(i - 1, w, r, c - 1);
            },
            Direction::Right => {
                lemma_fundamental_div_mod_converse(i + 1, w, r, c + 1);
            },
            Direction::Up => {
                assert((r - 1) * w == r * w - w) by (nonlinear_arith);
                lemma_fundamental_div_mod_converse(i - w, w, r - 1, c);
            },
            Direction::Down => {
                assert((r + 1) * w == r * w + w) by (nonlinear_arith);
                lemma_fundamental_div_mod_converse(i + w, w, r + 1, c);
            },
        }
    }

    /// Every cell of a grid with at least two cells has some in-bounds direction.
    pub proof fn lemma_some_step(self, i: int)
        requires
            self.wf(),
            self.area() >= 2,
            0 <= i < self.area(),
        ensures
            exists|d: Direction| self.can_step(i, d),
    {
        self.lemma_row_col(i);
        if self.width >= 2 {
            if self.col_of(i) > 0 {
                assert(self.can_step(i, Direction::Left));
            } else {
                assert(self.can_step(i, Direction::Right));
            }
        } else {
            assert(self.height >= 2) by (nonlinear_arith)
                requires
                    self.width == 1,
                    self.width * self.height >= 2,
            ;
            assert(self.area() == self.height);
            if i >= self.width {
                assert(self.can_step(i, Direction::Up));
            } else {
                assert(self.can_step(i, Direction::Down));
            }
        }
    }

    pub fn to_row_col(&self, i: usize) -> (rc: (usize, usize))
        requires
            self.wf(),
            i < self.area(),
        ensures
            rc.0 == self.row_of(i as int),
            rc.1 == self.col_of(i as int),
    {
        proof {
            self.lemma_row_col(i as int);
        }
        (i / self.width, i % self.width)
    }

    pub fn to_index(&self, row: usize, col: usize) -> (r: usize)
        requires
            self.wf(),
            row < self.height,
            col < self.width,
        ensures
            r == row * self.width + col,
            r < self.area(),
            self.row_of(r as int) == row,
            self.col_of(r as int) == col,
    {
        proof {
            assert(row * self.width + col < self.width * self.height) by (nonlinear_arith)
                requires
                    row < self.height,
                    col < self.width,
            ;
            lemma_fundamental_div_mod_converse(
                row as int * self.width as int + col as int,
                self.width as int,
                row as int,
                col as int,
            );
        }
        row * self.width + col
    }

    /// Boundary predicate for `d`, evaluated before any mask is consulted.
    pub fn can_step_exec(&self, i: usize, d: Direction) -> (r: bool)
        requires
            self.wf(),
            i < self.area(),
        ensures
            r == self.can_step(i as int, d),
    {
        match d {
            Direction::Left => i % self.width > 0,
            Direction::Right => i % self.width < self.width - 1,
            Direction::Up => i >= self.width,
            Direction::Down => {
                proof {
                    assert(self.width * self.height >= self.width) by (nonlinear_arith)
                        requires
                            self.height >= 1,
                            self.width >= 0,
                    ;
                }
                i < self.width * self.height - self.width
            },
        }
    }

    pub fn has_left(&self, i: usize) -> (r: bool)
        requires
            self.wf(),
            i < self.area(),
        ensures
            r == self.can_step(i as int, Direction::Left),
    {
        self.can_step_exec(i, Direction::Left)
    }

    pub fn has_right(&self, i: usize) -> (r: bool)
        requires
            self.wf(),
            i < self.area(),
        ensures
            r == self.can_step(i as int, Direction::Right),
    {
        self.can_step_exec(i, Direction::Right)
    }

    pub fn has_up(&self, i: usize) -> (r: bool)
        requires
            self.wf(),
            i < self.area(),
        ensures
            r == self.can_step(i as int, Direction::Up),
    {
        self.can_step_exec(i, Direction::Up)
    }

    pub fn has_down(&self, i: usize) -> (r: bool)
        requires
            self.wf(),
            i < self.area(),
        ensures
            r == self.can_step(i as int, Direction::Down),
    {
        self.can_step_exec(i, Direction::Down)
    }

    pub fn step_to(&self, i: usize, d: Direction) -> (r: usize)
        requires
            self.wf(),
            i < self.area(),
            self.can_step(i as int, d),
        ensures
            r == self.step(i as int, d),
            r < self.area(),
    {
        proof {
            self.lemma_step_reverse(i as int, d);
        }
        match d {
            Direction::Left => i - 1,
            Direction::Right => i + 1,
            Direction::Up => i - self.width,
            Direction::Down => i + self.width,
        }
    }
}

} // verus!
