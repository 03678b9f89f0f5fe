//! The rules of Sudoku on the model of a board.

use crate::board::{Board, Grid, Position};
use crate::geometry::{
    box_cell, column_cell, lemma_seen_cells, lemma_unit, listed_at, row_cell, unit,
};
use vstd::prelude::*;
use vstd::set_lib::{lemma_int_range, lemma_subset_equality, set_int_range};

verus! {

impl Grid {
    /// No digit stands twice in a row, a column or a box.
    pub open spec fn consistent(self) -> bool {
        forall|p: Position, q: Position|
            p.in_grid() && q.in_grid() && p != q && p.sees(q) && self.at(p) != 0 ==> #[trigger] self.at(
                p,
            ) != #[trigger] self.at(q)
    }

    /// Digit `d` stands in exactly one of the nine cells of unit `u`.
    pub open spec fn holds_once(self, u: int, d: i8) -> bool {
        exists|j: int|
            {
                &&& 0 <= j < 9
                &&& #[trigger] self.at(unit(u)[j]) == d
                &&& forall|k: int| 0 <= k < 9 && #[trigger] self.at(unit(u)[k]) == d ==> k == j
            }
    }

    /// Every row, every column and every box holds each digit from 1 to 9
    /// exactly once.
    pub open spec fn solved(self) -> bool {
        forall|u: int, d: i8| 0 <= u < 27 && 1 <= d <= 9 ==> #[trigger] self.holds_once(u, d)
    }
}

/// Nine different digits between 1 and 9 are all of them.
pub proof fn lemma_nine_of_nine(held: Seq<int>)
    requires
        held.len() == 9,
        forall|j: int| 0 <= j < 9 ==> 1 <= #[trigger] held[j] <= 9,
        forall|j: int, k: int| 0 <= j < 9 && 0 <= k < 9 && j != k ==> held[j] != held[k],
    ensures
        forall|d: int| 1 <= d <= 9 ==> held.contains(d),
{
    let all = set_int_range(1, 10);
    assert(held.no_duplicates());
    held.unique_seq_to_set();
    lemma_int_range(1, 10);
    assert(held.to_set().subset_of(all)) by {
        assert forall|d: int| held.to_set().contains(d) implies all.contains(d) by {
            let j = choose|j: int| 0 <= j < held.len() && held[j] == d;
            assert(1 <= held[j] <= 9);
        }
    }
    lemma_subset_equality(held.to_set(), all);
    assert forall|d: int| 1 <= d <= 9 implies held.contains(d) by {
        assert(all.contains(d));
        assert(held.to_set().contains(d));
    }
}

/// A grid without empty cells in which no digit stands twice in a row, a
/// column or a box holds every digit exactly once in each of them.
pub proof fn complete_consistent_is_solved(g: Grid)
    requires
        g.wf(),
        g.complete(),
        g.consistent(),
    ensures
        g.solved(),
{
    assert forall|u: int, d: i8| 0 <= u < 27 && 1 <= d <= 9 implies #[trigger] g.holds_once(u, d) by {
        let held = Seq::new(9, |j: int| g.at(unit(u)[j]) as int);
        assert forall|j: int| 0 <= j < 9 implies 1 <= #[trigger] held[j] <= 9 by {
            lemma_unit(u, j, j);
        }
        assert forall|j: int, k: int| 0 <= j < 9 && 0 <= k < 9 && j != k implies held[j]
            != held[k] by {
            lemma_unit(u, j, k);
            lemma_unit(u, k, j);
            assert(g.at(unit(u)[j]) != g.at(unit(u)[k]));
        }
        lemma_nine_of_nine(held);
        assert(held.contains(d as int));
        let j = choose|j: int| 0 <= j < held.len() && held[j] == d as int;
        assert(g.at(unit(u)[j]) == d);
        assert forall|k: int| 0 <= k < 9 && #[trigger] g.at(unit(u)[k]) == d implies k == j by {
            assert(held[k] == held[j]);
        }
    }
}

/// The index in unit `u` at which digit `d` stands, where it stands there.
pub open spec fn place_of(g: Grid, u: int, d: i8) -> int {
    choose|j: int| 0 <= j < 9 && #[trigger] g.at(unit(u)[j]) == d
}

/// A grid that holds every digit exactly once in each row, column and box
/// has no empty cell, and no digit stands twice in a row, a column or a box.
pub proof fn solved_is_complete_and_consistent(g: Grid)
    requires
        g.wf(),
        g.solved(),
    ensures
        g.complete(),
        g.consistent(),
{
    assert forall|p: Position| p.in_grid() implies #[trigger] g.at(p) != 0 by {
        let u = p.y as int;
        assert(unit(u)[p.x as int] == p);
        let places = Seq::new(9, |i: int| place_of(g, u, (i + 1) as i8) + 1);
        assert forall|i: int| 0 <= i < 9 implies 1 <= #[trigger] places[i] <= 9 && g.at(
            unit(u)[places[i] - 1],
        ) == i + 1 by {
            assert(g.holds_once(u, (i + 1) as i8));
        }
        lemma_nine_of_nine(places);
        assert(places.contains(p.x + 1));
    }
    assert forall|p: Position, q: Position|
        p.in_grid() && q.in_grid() && p != q && p.sees(q) && g.at(p) != 0 implies #[trigger] g.at(p)
        != #[trigger] g.at(q) by {
        let d = g.at(p);
        let (u, j, k) = if p.y == q.y {
            (p.y as int, p.x as int, q.x as int)
        } else if p.x == q.x {
            (9 + p.x, p.y as int, q.y as int)
        } else {
            (18 + p.y / 3 * 3 + p.x / 3, p.y % 3 * 3 + p.x % 3, q.y % 3 * 3 + q.x % 3)
        };
        assert(unit(u)[j] == p && unit(u)[k] == q);
        assert(g.holds_once(u, d));
    }
}

impl Board {
    /// Tests whether the digit in cell `p` stands in another cell of its
    /// row, its column or its box.
    pub fn stands_twice(&self, p: Position) -> (r: bool)
        requires
            p.in_grid(),
        ensures
            r == exists|q: Position|
                q.in_grid() && q != p && p.sees(q) && #[trigger] self@.at(q) == self@.at(p),
    {
        let value = self.get(p);
        let startx: i8 = p.x - (p.x % 3);
        let starty: i8 = p.y - (p.y % 3);
        let mut j: i8 = 0;
        while j < 9
            invariant
                0 <= j <= 9,
                p.in_grid(),
                value == self@.at(p),
                startx == p.x - p.x % 3,
                starty == p.y - p.y % 3,
                forall|k: int, q: Position|
                    0 <= k < j && #[trigger] listed_at(p, k, q) && q != p ==> self@.at(q) != value,
            decreases 9 - j,
        {
            let in_row = Position { x: j, y: p.y };
            let in_column = Position { x: p.x, y: j };
            let in_box = Position { x: startx + j % 3, y: starty + j / 3 };
            proof {
                assert(row_cell(p, j as int) == in_row);
                assert(column_cell(p, j as int) == in_column);
                assert(box_cell(p, j as int) == in_box);
                assert(listed_at(p, j as int, in_row));
                assert(listed_at(p, j as int, in_column));
                assert(listed_at(p, j as int, in_box));
                lemma_seen_cells(p, in_row);
                lemma_seen_cells(p, in_column);
                lemma_seen_cells(p, in_box);
            }
            if in_row != p && self.get(in_row) == value {
                return true;
            }
            if in_column != p && self.get(in_column) == value {
                return true;
            }
            if in_box != p && self.get(in_box) == value {
                return true;
            }
            j += 1;
        }
        proof {
            assert forall|q: Position| q.in_grid() && q != p && p.sees(q) implies #[trigger] self@.at(
                q,
            ) != value by {
                lemma_seen_cells(p, q);
                let k = choose|k: int| 0 <= k < 9 && #[trigger] listed_at(p, k, q);
                assert(listed_at(p, k, q));
            }
        }
        false
    }

    /// Tests whether no digit stands twice in a row, a column or a box.
    pub fn is_consistent(&self) -> (r: bool)
        ensures
            r == self@.consistent(),
    {
        let mut y: i8 = 0;
        while y < 9
            invariant
                0 <= y <= 9,
                forall|p: Position, q: Position|
                    p.in_grid() && q.in_grid() && p.y < y && p != q && p.sees(q) && self@.at(p) != 0
                        ==> #[trigger] self@.at(p) != #[trigger] self@.at(q),
            decreases 9 - y,
        {
            let mut x: i8 = 0;
            while x < 9
                invariant
                    0 <= y < 9,
                    0 <= x <= 9,
                    forall|p: Position, q: Position|
                        p.in_grid() && q.in_grid() && (p.y < y || (p.y == y && p.x < x)) && p != q
                            && p.sees(q) && self@.at(p) != 0 ==> #[trigger] self@.at(p)
                            != #[trigger] self@.at(q),
                decreases 9 - x,
            {
                let here = Position { x, y };
                if self.get(here) != 0 && self.stands_twice(here) {
                    return false;
                }
                x += 1;
            }
            y += 1;
        }
        true
    }

    /// Tests whether every row, every column and every box holds each digit
    /// from 1 to 9 exactly once.
    pub fn is_solved(&self) -> (r: bool)
        ensures
            r == self@.solved(),
    {
        proof {
            use_type_invariant(self);
            if self@.solved() {
                solved_is_complete_and_consistent(self@);
            }
            if self@.complete() && self@.consistent() {
                complete_consistent_is_solved(self@);
            }
        }
        self.is_complete() && self.is_consistent()
    }
}

} // verus!
