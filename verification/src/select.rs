//! The cell selector: the empty cells in a chance order, and among them the
//! first with the fewest candidates.

use crate::board::{Board, Grid, Position};
use crate::candidates::get_possible_values;
use crate::geometry::cells;
use crate::random::shuffle;
use vstd::prelude::*;

verus! {

impl Grid {
    /// The test that a cell is empty.
    pub open spec fn blank(self) -> spec_fn(Position) -> bool {
        |p: Position| self.at(p) == 0
    }

    /// The empty cells of the grid, row by row.
    pub open spec fn empty_cells(self) -> Seq<Position> {
        cells().filter(self.blank())
    }

    /// The empty cells are the cells of the grid that hold 0, and the grid is
    /// complete exactly if there is none.
    pub proof fn lemma_empty_cells(self)
        ensures
            self.empty_cells().len() <= 81,
            forall|p: Position| #[trigger]
                self.empty_cells().contains(p) <==> p.in_grid() && self.at(p) == 0,
            self.complete() <==> self.empty_cells().len() == 0,
    {
        let blank = self.blank();
        cells().lemma_filter_len(blank);
        assert forall|p: Position| #[trigger]
            self.empty_cells().contains(p) <==> p.in_grid() && self.at(p) == 0 by {
            if self.empty_cells().contains(p) {
                cells().lemma_filter_contains_rev(blank, p);
                let i = choose|i: int| 0 <= i < cells().len() && cells()[i] == p;
                assert(p.x == i % 9 && p.y == i / 9);
            }
            if p.in_grid() && self.at(p) == 0 {
                let i = p.y * 9 + p.x;
                assert(cells()[i] == p);
                assert(blank(cells()[i]));
                cells().lemma_filter_contains(blank, i);
            }
        }
        if self.empty_cells().len() != 0 {
            let p = self.empty_cells()[0];
            assert(self.empty_cells().contains(p));
            assert(self.at(p) == 0);
        }
        if !self.complete() {
            let p = choose|p: Position| p.in_grid() && #[trigger] self.at(p) == 0;
            assert(self.empty_cells().contains(p));
        }
    }

    /// Among `cells`, the one at index `k` has the fewest candidates, and
    /// every cell before it has more.
    pub open spec fn first_fewest(self, cells: Seq<Position>, k: int) -> bool {
        &&& 0 <= k < cells.len()
        &&& forall|j: int|
            0 <= j < cells.len() ==> self.candidates(cells[k]).len() <= self.candidates(
                #[trigger] cells[j],
            ).len()
        &&& forall|j: int|
            0 <= j < k ==> self.candidates(cells[k]).len() < self.candidates(
                #[trigger] cells[j],
            ).len()
    }
}

/// Lists the empty cells of the board, row by row.
pub fn scan_empty_positions(board: &Board) -> (empty: Vec<Position>)
    ensures
        empty@ == board@.empty_cells(),
{
    let ghost blank = board@.blank();
    let mut empty: Vec<Position> = Vec::with_capacity(81);
    let mut y: i8 = 0;
    while y < 9
        invariant
            0 <= y <= 9,
            blank == board@.blank(),
            empty@ == cells().take(y * 9).filter(blank),
        decreases 9 - y,
    {
        let mut x: i8 = 0;
        while x < 9
            invariant
                0 <= y < 9,
                0 <= x <= 9,
                blank == board@.blank(),
                empty@ == cells().take(y * 9 + x).filter(blank),
            decreases 9 - x,
        {
            let here = Position { x, y };
            proof {
                let n = y * 9 + x;
                assert(cells().take(n + 1).drop_last() == cells().take(n));
                assert(cells().take(n + 1).last() == here);
                reveal(Seq::filter);
            }
            if board.get(here) == 0 {
                empty.push(here);
            }
            x += 1;
        }
        y += 1;
    }
    assert(cells().take(81) == cells());
    empty
}

/// Lists the empty cells of the board in a chance order: each empty cell
/// once, and no other.
pub fn get_empty_positions(board: Board) -> (empty: Vec<Position>)
    ensures
        empty@.to_multiset() == board@.empty_cells().to_multiset(),
        empty@.len() == board@.empty_cells().len(),
        forall|p: Position| #[trigger] empty@.contains(p) <==> p.in_grid() && board@.at(p) == 0,
        forall|i: int|
            0 <= i < empty@.len() ==> (#[trigger] empty@[i]).in_grid() && board@.at(empty@[i]) == 0,
{
    let mut empty = scan_empty_positions(&board);
    let mut rng = rand::thread_rng();
    shuffle(&mut empty, &mut rng);
    proof {
        let listed = board@.empty_cells();
        board@.lemma_empty_cells();
        empty@.to_multiset_ensures();
        listed.to_multiset_ensures();
        assert forall|p: Position| #[trigger]
            empty@.contains(p) <==> p.in_grid() && board@.at(p) == 0 by {
            assert(empty@.contains(p) <==> empty@.to_multiset().count(p) > 0);
            assert(listed.contains(p) <==> listed.to_multiset().count(p) > 0);
        }
        assert forall|i: int| 0 <= i < empty@.len() implies (#[trigger] empty@[i]).in_grid()
            && board@.at(empty@[i]) == 0 by {
            assert(empty@.contains(empty@[i]));
        }
    }
    empty
}

/// Picks from `empty` the first cell with the fewest candidates and returns
/// it with its candidates: none for a dead end, one for a forced move,
/// several for a choice. Ties go to the cell that comes first in `empty`.
/// For an empty list the result is `Position::none()` and no candidates.
pub fn get_best_empty_position(empty: &Vec<Position>, board: &Board) -> (best: (Position, Vec<i8>))
    requires
        forall|i: int| 0 <= i < empty@.len() ==> (#[trigger] empty@[i]).in_grid(),
    ensures
        empty@.len() == 0 ==> best.0 == Position::none() && best.1@.len() == 0,
        empty@.len() > 0 ==> best.1@ == board@.candidates(best.0) && exists|k: int| #[trigger]
            board@.first_fewest(empty@, k) && best.0 == empty@[k],
{
    let mut lowest: usize = 10;
    let mut position = Position::none();
    let mut values: Vec<i8> = Vec::new();
    let ghost mut at: int = 0;
    let mut i: usize = 0;
    while i < empty.len()
        invariant
            0 <= i <= empty@.len(),
            forall|i: int| 0 <= i < empty@.len() ==> (#[trigger] empty@[i]).in_grid(),
            i == 0 ==> lowest == 10 && position == Position::none() && values@.len() == 0,
            i > 0 ==> {
                &&& board@.first_fewest(empty@.take(i as int), at)
                &&& position == empty@[at]
                &&& values@ == board@.candidates(position)
                &&& lowest == values@.len()
            },
        decreases empty@.len() - i,
    {
        let pos = empty[i];
        let possible_values = get_possible_values(*board, pos);
        let ghost seen = empty@.take(i as int);
        let ghost next = empty@.take(i + 1);
        if possible_values.len() < lowest {
            position = pos;
            values = possible_values;
            lowest = values.len();
            proof {
                assert forall|j: int| 0 <= j < next.len() implies board@.candidates(next[i as int]).len()
                    <= board@.candidates(#[trigger] next[j]).len() by {
                    if j < i {
                        assert(seen[j] == next[j]);
                    }
                }
                assert forall|j: int| 0 <= j < i implies board@.candidates(next[i as int]).len()
                    < board@.candidates(#[trigger] next[j]).len() by {
                    assert(seen[j] == next[j]);
                }
                at = i as int;
            }
        } else {
            proof {
                assert forall|j: int| 0 <= j < next.len() implies board@.candidates(next[at]).len()
                    <= board@.candidates(#[trigger] next[j]).len() by {
                    if j < i {
                        assert(seen[j] == next[j]);
                    }
                }
                assert forall|j: int| 0 <= j < at implies board@.candidates(next[at]).len()
                    < board@.candidates(#[trigger] next[j]).len() by {
                    assert(seen[j] == next[j]);
                }
            }
        }
        i += 1;
    }
    proof {
        assert(empty@.take(empty@.len() as int) == empty@);
    }
    (position, values)
}

/// Among one or more cells, some cell is the first with the fewest candidates.
pub proof fn lemma_first_fewest_exists(g: Grid, cells: Seq<Position>)
    requires
        cells.len() > 0,
    ensures
        exists|k: int| #[trigger] g.first_fewest(cells, k),
    decreases cells.len(),
{
    if cells.len() == 1 {
        assert(g.first_fewest(cells, 0));
    } else {
        let before = cells.drop_last();
        lemma_first_fewest_exists(g, before);
        let k = choose|k: int| #[trigger] g.first_fewest(before, k);
        let last = cells.len() - 1;
        if g.candidates(cells[last]).len() < g.candidates(cells[k]).len() {
            assert forall|j: int| 0 <= j < cells.len() implies g.candidates(cells[last]).len()
                <= g.candidates(#[trigger] cells[j]).len() by {
                if j < last {
                    assert(before[j] == cells[j]);
                }
            }
            assert forall|j: int| 0 <= j < last implies g.candidates(cells[last]).len()
                < g.candidates(#[trigger] cells[j]).len() by {
                assert(before[j] == cells[j]);
            }
            assert(g.first_fewest(cells, last));
        } else {
            assert forall|j: int| 0 <= j < cells.len() implies g.candidates(cells[k]).len()
                <= g.candidates(#[trigger] cells[j]).len() by {
                if j < last {
                    assert(before[j] == cells[j]);
                }
            }
            assert forall|j: int| 0 <= j < k implies g.candidates(cells[k]).len() < g.candidates(
                #[trigger] cells[j],
            ).len() by {
                assert(before[j] == cells[j]);
            }
            assert(g.first_fewest(cells, k));
        }
    }
}

} // verus!
