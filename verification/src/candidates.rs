//! The candidate evaluator: which digits a cell may still take.

use crate::board::{Board, Grid, Position};
use crate::geometry::{box_cell, column_cell, lemma_seen_cells, listed_at, row_cell};
use vstd::prelude::*;

verus! {

/// The digits 1 to 9 in ascending order.
pub open spec fn digits() -> Seq<i8> {
    Seq::new(9, |i: int| (i + 1) as i8)
}

impl Grid {
    /// Whether `d` stands in the row, the column or the box of `p`.
    pub open spec fn uses(self, p: Position, d: i8) -> bool {
        exists|q: Position| q.in_grid() && p.sees(q) && (#[trigger] self.at(q)) == d
    }

    /// The test that a digit is still free for cell `p`.
    pub open spec fn free_at(self, p: Position) -> spec_fn(i8) -> bool {
        |d: i8| !self.uses(p, d)
    }

    /// The digits 1 to 9 that stand neither in the row, nor in the column,
    /// nor in the box of `p`, in ascending order.
    pub open spec fn candidates(self, p: Position) -> Seq<i8> {
        digits().filter(self.free_at(p))
    }

    /// A digit is a candidate exactly if it is between 1 and 9 and free, and
    /// there are at most nine candidates.
    pub proof fn lemma_candidates(self, p: Position)
        ensures
            self.candidates(p).len() <= 9,
            forall|d: i8| #[trigger]
                self.candidates(p).contains(d) <==> 1 <= d <= 9 && !self.uses(p, d),
    {
        let free = self.free_at(p);
        digits().lemma_filter_len(free);
        assert forall|d: i8| #[trigger]
            self.candidates(p).contains(d) <==> 1 <= d <= 9 && !self.uses(p, d) by {
            if self.candidates(p).contains(d) {
                digits().lemma_filter_contains_rev(free, d);
                let i = choose|i: int| 0 <= i < digits().len() && digits()[i] == d;
                assert(d == i + 1);
            }
            if 1 <= d <= 9 && !self.uses(p, d) {
                assert(digits()[d - 1] == d);
                assert(free(digits()[d - 1]));
                digits().lemma_filter_contains(free, d - 1);
            }
        }
    }
}

/// Whether `d` stands in the `j`-th cell of the row, the column or the box of `p`.
pub open spec fn found_at(g: Grid, p: Position, j: int, d: i8) -> bool {
    ||| g.at(row_cell(p, j)) == d
    ||| g.at(column_cell(p, j)) == d
    ||| g.at(box_cell(p, j)) == d
}

/// A digit stands in the row, the column or the box of `p` exactly if it
/// stands in one of their 27 cells.
pub proof fn lemma_uses(g: Grid, p: Position, d: i8)
    requires
        p.in_grid(),
    ensures
        g.uses(p, d) <==> exists|j: int| 0 <= j < 9 && #[trigger] found_at(g, p, j, d),
{
    if g.uses(p, d) {
        let q = choose|q: Position| q.in_grid() && p.sees(q) && (#[trigger] g.at(q)) == d;
        lemma_seen_cells(p, q);
        let j = choose|j: int| 0 <= j < 9 && #[trigger] listed_at(p, j, q);
        assert(found_at(g, p, j, d));
    }
    if exists|j: int| 0 <= j < 9 && #[trigger] found_at(g, p, j, d) {
        let j = choose|j: int| 0 <= j < 9 && #[trigger] found_at(g, p, j, d);
        let q = if g.at(row_cell(p, j)) == d {
            row_cell(p, j)
        } else if g.at(column_cell(p, j)) == d {
            column_cell(p, j)
        } else {
            box_cell(p, j)
        };
        assert(listed_at(p, j, q));
        lemma_seen_cells(p, q);
        assert(q.in_grid() && p.sees(q) && g.at(q) == d);
    }
}

/// Computes the digits that cell `pos` may take: those from 1 to 9 that
/// stand neither in its row, nor in its column, nor in its 3×3 box, in
/// ascending order.
pub fn get_possible_values(board: Board, pos: Position) -> (values: Vec<i8>)
    requires
        pos.in_grid(),
    ensures
        values@ == board@.candidates(pos),
        values@.len() <= 9,
        forall|d: i8| #[trigger] values@.contains(d) <==> 1 <= d <= 9 && !board@.uses(pos, d),
        forall|i: int, j: int| 0 <= i < j < values@.len() ==> values@[i] < values@[j],
{
    let ghost g = board@;
    let startx: i8 = pos.x - (pos.x % 3);
    let starty: i8 = pos.y - (pos.y % 3);
    let mut seen: [bool; 10] = [false; 10];
    let mut j: i8 = 0;
    while j < 9
        invariant
            0 <= j <= 9,
            pos.in_grid(),
            g == board@,
            startx == pos.x - pos.x % 3,
            starty == pos.y - pos.y % 3,
            forall|d: i8|
                1 <= d <= 9 ==> (seen[d as int] <==> exists|k: int|
                    0 <= k < j && #[trigger] found_at(g, pos, k, d)),
        decreases 9 - j,
    {
        let in_row = board.get(Position { x: j, y: pos.y });
        let in_column = board.get(Position { x: pos.x, y: j });
        let in_box = board.get(Position { x: startx + j % 3, y: starty + j / 3 });
        let ghost before = seen;
        seen[in_row as usize] = true;
        seen[in_column as usize] = true;
        seen[in_box as usize] = true;
        proof {
            assert(row_cell(pos, j as int) == Position { x: j, y: pos.y });
            assert(column_cell(pos, j as int) == Position { x: pos.x, y: j });
            assert(box_cell(pos, j as int) == Position {
                x: (startx + j % 3) as i8,
                y: (starty + j / 3) as i8,
            });
            assert forall|d: i8| 1 <= d <= 9 implies (seen[d as int] <==> exists|k: int|
                0 <= k < j + 1 && #[trigger] found_at(g, pos, k, d)) by {
                if seen[d as int] {
                    if before[d as int] {
                        let k = choose|k: int| 0 <= k < j && #[trigger] found_at(g, pos, k, d);
                        assert(found_at(g, pos, k, d));
                    } else {
                        assert(found_at(g, pos, j as int, d));
                    }
                }
                if exists|k: int| 0 <= k < j + 1 && #[trigger] found_at(g, pos, k, d) {
                    let k = choose|k: int| 0 <= k < j + 1 && #[trigger] found_at(g, pos, k, d);
                    if k < j {
                        assert(before[d as int]);
                    }
                }
            }
        }
        j += 1;
    }
    let ghost free = g.free_at(pos);
    let mut values: Vec<i8> = Vec::with_capacity(9);
    let mut d: i8 = 1;
    while d < 10
        invariant
            1 <= d <= 10,
            pos.in_grid(),
            free == g.free_at(pos),
            forall|e: i8|
                1 <= e <= 9 ==> (seen[e as int] <==> exists|k: int|
                    0 <= k < 9 && #[trigger] found_at(g, pos, k, e)),
            values@ == digits().take(d - 1).filter(free),
            forall|i: int| 0 <= i < values@.len() ==> 1 <= #[trigger] values@[i] < d,
            forall|i: int, j: int| 0 <= i < j < values@.len() ==> values@[i] < values@[j],
        decreases 10 - d,
    {
        proof {
            lemma_uses(g, pos, d);
            assert(digits().take(d as int).drop_last() == digits().take(d - 1));
            assert(digits().take(d as int).last() == d);
            reveal(Seq::filter);
        }
        if !seen[d as usize] {
            values.push(d);
        }
        d += 1;
    }
    proof {
        assert(digits().take(9) == digits());
        g.lemma_candidates(pos);
    }
    values
}

} // verus!
