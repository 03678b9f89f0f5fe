//! The geometry of the grid: its cells, and which cells share a row, a
//! column or a box.

use crate::board::Position;
use vstd::prelude::*;

verus! {

impl Position {
    /// Whether two cells share a row, a column or a 3×3 box. A cell sees itself.
    pub open spec fn sees(self, other: Position) -> bool {
        ||| self.y == other.y
        ||| self.x == other.x
        ||| (self.x / 3 == other.x / 3 && self.y / 3 == other.y / 3)
    }
}

/// The 81 cells of the grid, row by row.
pub open spec fn cells() -> Seq<Position> {
    Seq::new(81, |i: int| Position { x: (i % 9) as i8, y: (i / 9) as i8 })
}

/// The `j`-th cell of the row of `p`.
pub open spec fn row_cell(p: Position, j: int) -> Position {
    Position { x: j as i8, y: p.y }
}

/// The `j`-th cell of the column of `p`.
pub open spec fn column_cell(p: Position, j: int) -> Position {
    Position { x: p.x, y: j as i8 }
}

/// The `j`-th cell of the box of `p`, row by row from the box's top left cell.
pub open spec fn box_cell(p: Position, j: int) -> Position {
    Position { x: (p.x - p.x % 3 + j % 3) as i8, y: (p.y - p.y % 3 + j / 3) as i8 }
}

/// Whether `q` is the `j`-th cell of the row, the column or the box of `p`.
pub open spec fn listed_at(p: Position, j: int, q: Position) -> bool {
    row_cell(p, j) == q || column_cell(p, j) == q || box_cell(p, j) == q
}

/// The cells that `p` sees are the nine of its row, the nine of its column
/// and the nine of its box.
pub proof fn lemma_seen_cells(p: Position, q: Position)
    requires
        p.in_grid(),
    ensures
        q.in_grid() && p.sees(q) <==> exists|j: int| 0 <= j < 9 && #[trigger] listed_at(p, j, q),
{
    if q.in_grid() && p.sees(q) {
        if q.y == p.y {
            assert(listed_at(p, q.x as int, q));
        } else if q.x == p.x {
            assert(listed_at(p, q.y as int, q));
        } else {
            let j = (q.y - (p.y - p.y % 3)) * 3 + (q.x - (p.x - p.x % 3));
            assert(box_cell(p, j) == q);
            assert(listed_at(p, j, q));
        }
    }
}

/// The nine cells of a unit, in order. Units 0 to 8 are the rows from the
/// top, 9 to 17 the columns from the left, 18 to 26 the 3×3 boxes row by row.
pub open spec fn unit(u: int) -> Seq<Position> {
    Seq::new(
        9,
        |j: int|
            if u < 9 {
                Position { x: j as i8, y: u as i8 }
            } else if u < 18 {
                Position { x: (u - 9) as i8, y: j as i8 }
            } else {
                Position { x: ((u - 18) % 3 * 3 + j % 3) as i8, y: ((u - 18) / 3 * 3 + j / 3) as i8 }
            },
    )
}

/// The cells of a unit lie in the grid, differ from one another and see one
/// another.
pub proof fn lemma_unit(u: int, j: int, k: int)
    requires
        0 <= u < 27,
        0 <= j < 9,
        0 <= k < 9,
    ensures
        unit(u)[j].in_grid(),
        unit(u)[j].sees(unit(u)[k]),
        j != k ==> unit(u)[j] != unit(u)[k],
{
}

} // verus!
