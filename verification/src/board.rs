//! The 9×9 grid, its cells and its mathematical model.

use vstd::prelude::*;

verus! {

/// The coordinate that no cell has.
pub const OFF_GRID: i8 = -1;

/// A cell of the grid, by column `x` and row `y`.
#[derive(Copy, Clone, Debug, PartialEq, Eq, Structural)]
pub struct Position {
    pub x: i8,
    pub y: i8,
}

impl Position {
    /// Whether the position names one of the 81 cells.
    pub open spec fn in_grid(self) -> bool {
        0 <= self.x < 9 && 0 <= self.y < 9
    }

    /// The position that stands for "no cell". It lies outside the grid and
    /// is never used to index a board.
    pub open spec fn spec_none() -> Position {
        Position { x: OFF_GRID, y: OFF_GRID }
    }

    #[verifier::when_used_as_spec(spec_none)]
    pub fn none() -> (p: Position)
        ensures
            p == Position::spec_none(),
            !p.in_grid(),
    {
        Position { x: OFF_GRID, y: OFF_GRID }
    }

    /// Tests whether the position names one of the 81 cells.
    pub fn is_in_grid(&self) -> (r: bool)
        ensures
            r == self.in_grid(),
    {
        0 <= self.x && self.x < 9 && 0 <= self.y && self.y < 9
    }
}

/// The mathematical model of a board: nine rows of nine cells, row `y` first,
/// each cell a digit 1 to 9 or 0 for an empty cell.
#[verifier::ext_equal]
pub struct Grid {
    pub rows: Seq<Seq<i8>>,
}

impl Grid {
    /// Nine rows of nine cells, every cell between 0 and 9.
    pub open spec fn wf(self) -> bool {
        &&& self.rows.len() == 9
        &&& forall|y: int| 0 <= y < 9 ==> (#[trigger] self.rows[y]).len() == 9
        &&& forall|p: Position| p.in_grid() ==> 0 <= #[trigger] self.at(p) <= 9
    }

    /// The content of cell `p`.
    pub open spec fn at(self, p: Position) -> i8 {
        self.rows[p.y as int][p.x as int]
    }

    /// The grid with `v` written into cell `p`.
    pub open spec fn with(self, p: Position, v: i8) -> Grid {
        Grid { rows: self.rows.update(p.y as int, self.rows[p.y as int].update(p.x as int, v)) }
    }

    /// No cell is empty.
    pub open spec fn complete(self) -> bool {
        forall|p: Position| p.in_grid() ==> #[trigger] self.at(p) != 0
    }

    /// Every cell that `base` has filled holds the same digit here.
    pub open spec fn extends(self, base: Grid) -> bool {
        forall|p: Position| p.in_grid() && #[trigger] base.at(p) != 0 ==> self.at(p) == base.at(p)
    }

    /// Two well-formed grids with the same content in every cell are the
    /// same grid.
    pub proof fn lemma_same_cells(self, other: Grid)
        requires
            self.wf(),
            other.wf(),
            forall|p: Position| p.in_grid() ==> #[trigger] self.at(p) == other.at(p),
        ensures
            self == other,
    {
        assert forall|y: int| 0 <= y < 9 implies #[trigger] self.rows[y] =~= other.rows[y] by {
            assert forall|x: int| 0 <= x < 9 implies self.rows[y][x] == other.rows[y][x] by {
                let p = Position { x: x as i8, y: y as i8 };
                assert(self.at(p) == other.at(p));
            }
        }
        assert(self.rows =~= other.rows);
    }

    /// Writing into a cell changes that cell and no other.
    pub proof fn lemma_with(self, p: Position, v: i8)
        requires
            self.wf(),
            p.in_grid(),
            0 <= v <= 9,
        ensures
            self.with(p, v).wf(),
            self.with(p, v).at(p) == v,
            forall|q: Position| q.in_grid() && q != p ==> #[trigger] self.with(p, v).at(q) == self.at(q),
    {
        let after = self.with(p, v);
        assert forall|q: Position| q.in_grid() implies (#[trigger] after.at(q)) == (if q == p {
            v
        } else {
            self.at(q)
        }) by {
            if q.y != p.y {
            } else if q.x != p.x {
            } else {
                assert(q == p);
            }
        }
        assert forall|q: Position| q.in_grid() implies 0 <= #[trigger] after.at(q) <= 9 by {
            assert(0 <= self.at(q) <= 9);
        }
    }
}

/// The model of a board given as nine rows of nine cells.
pub open spec fn grid_of(rows: [[i8; 9]; 9]) -> Grid {
    Grid { rows: Seq::new(9, |y: int| rows[y]@) }
}

/// A Sudoku board. Every cell holds a digit 1 to 9, or 0 when it is empty.
#[derive(Copy, Clone, Debug, PartialEq, Eq)]
pub struct Board {
    squares: [[i8; 9]; 9],
}

impl View for Board {
    type V = Grid;

    closed spec fn view(&self) -> Grid {
        grid_of(self.squares)
    }
}

impl Board {
    /// What holds of every board: its model is nine by nine, with cells from 0 to 9.
    #[verifier::type_invariant]
    pub open spec fn wf(&self) -> bool {
        self@.wf()
    }

    /// The board with every cell empty.
    pub fn empty() -> (b: Board)
        ensures
            b@.wf(),
            forall|p: Position| p.in_grid() ==> #[trigger] b@.at(p) == 0,
    {
        Board { squares: [[0i8; 9]; 9] }
    }

    /// Makes a board of nine rows of nine cells, if every cell is between 0 and 9.
    pub fn from_rows(rows: [[i8; 9]; 9]) -> (made: Option<Board>)
        ensures
            made is Some <==> grid_of(rows).wf(),
            made matches Some(b) ==> b@ == grid_of(rows),
    {
        let mut y: usize = 0;
        while y < 9
            invariant
                0 <= y <= 9,
                forall|p: Position| p.in_grid() && p.y < y ==> 0 <= #[trigger] grid_of(rows).at(p) <= 9,
            decreases 9 - y,
        {
            let mut x: usize = 0;
            while x < 9
                invariant
                    0 <= y < 9,
                    0 <= x <= 9,
                    forall|p: Position|
                        p.in_grid() && (p.y < y || (p.y == y && p.x < x)) ==> 0 <= #[trigger] grid_of(
                            rows,
                        ).at(p) <= 9,
                decreases 9 - x,
            {
                let v = rows[y][x];
                if v < 0 || v > 9 {
                    assert(grid_of(rows).at(Position { x: x as i8, y: y as i8 }) == v);
                    return None;
                }
                x += 1;
            }
            y += 1;
        }
        Some(Board { squares: rows })
    }

    /// The nine rows of the board.
    pub fn rows(&self) -> (rows: [[i8; 9]; 9])
        ensures
            grid_of(rows) == self@,
    {
        self.squares
    }

    /// The content of cell `p`.
    pub fn get(&self, p: Position) -> (v: i8)
        requires
            p.in_grid(),
        ensures
            v == self@.at(p),
            0 <= v <= 9,
    {
        proof {
            use_type_invariant(self);
        }
        self.squares[p.y as usize][p.x as usize]
    }

    /// Writes `v` into cell `p`.
    pub fn set(&mut self, p: Position, v: i8)
        requires
            p.in_grid(),
            0 <= v <= 9,
        ensures
            final(self)@ == old(self)@.with(p, v),
    {
        proof {
            use_type_invariant(&*self);
            old(self)@.lemma_with(p, v);
        }
        let mut squares = self.squares;
        squares[p.y as usize][p.x as usize] = v;
        assert(grid_of(squares).rows =~= old(self)@.with(p, v).rows);
        *self = Board { squares };
    }

    /// Tests whether no cell is empty.
    pub fn is_complete(&self) -> (r: bool)
        ensures
            r == self@.complete(),
    {
        let mut y: usize = 0;
        while y < 9
            invariant
                0 <= y <= 9,
                forall|p: Position| p.in_grid() && p.y < y ==> #[trigger] self@.at(p) != 0,
            decreases 9 - y,
        {
            let mut x: usize = 0;
            while x < 9
                invariant
                    0 <= y < 9,
                    0 <= x <= 9,
                    forall|p: Position|
                        p.in_grid() && (p.y < y || (p.y == y && p.x < x)) ==> #[trigger] self@.at(p)
                            != 0,
                decreases 9 - x,
            {
                if self.squares[y][x] == 0 {
                    assert(self@.at(Position { x: x as i8, y: y as i8 }) == 0);
                    return false;
                }
                x += 1;
            }
            y += 1;
        }
        true
    }
}

} // verus!
