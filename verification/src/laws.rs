//! What holds of every grid and of every run of the engine.

use crate::board::{Grid, Position};
use crate::engine::{lemma_run_after_step, Draw, Engine, Mode};
use crate::rules::{complete_consistent_is_solved, solved_is_complete_and_consistent};
use crate::select::lemma_first_fewest_exists;
use vstd::prelude::*;

verus! {

impl Engine {
    /// What holds of every state that a solve of `input` reaches: both grids
    /// are well formed and keep the clues of `input`; while the engine is
    /// deducing, board and checkpoint are the same grid; and if `input`
    /// breaks no rule, neither grid does.
    pub open spec fn sound_for(self, input: Grid) -> bool {
        &&& self.board.wf()
        &&& self.checkpoint.wf()
        &&& self.board.extends(input)
        &&& self.checkpoint.extends(input)
        &&& (self.mode == Mode::Deducing ==> self.board == self.checkpoint)
        &&& (input.consistent() ==> self.board.consistent() && self.checkpoint.consistent())
    }
}

/// A candidate never breaks a rule: in a grid where no digit stands twice in
/// a row, a column or a box, writing a candidate of an empty cell into that
/// cell leaves it so.
pub proof fn candidate_keeps_consistency(g: Grid, p: Position, d: i8)
    requires
        g.wf(),
        g.consistent(),
        p.in_grid(),
        g.at(p) == 0,
        g.candidates(p).contains(d),
    ensures
        g.with(p, d).wf(),
        g.with(p, d).consistent(),
{
    g.lemma_candidates(p);
    g.lemma_with(p, d);
    let after = g.with(p, d);
    assert forall|a: Position, b: Position|
        a.in_grid() && b.in_grid() && a != b && a.sees(b) && after.at(a) != 0 implies #[trigger] after.at(
        a,
    ) != #[trigger] after.at(b) by {
        if a == p {
            assert(p.sees(b) && g.at(b) == after.at(b));
        } else if b == p {
            assert(p.sees(a) && g.at(a) == after.at(a));
        } else {
            assert(g.at(a) != g.at(b));
        }
    }
}

/// A step keeps what holds of every state.
pub proof fn step_keeps_soundness(e: Engine, input: Grid, d: Draw)
    requires
        e.sound_for(input),
        e.admits(d),
    ensures
        e.next(d).sound_for(input),
{
    let options = e.board.candidates(d.cell);
    e.board.lemma_candidates(d.cell);
    if options.len() == 0 {
    } else {
        let v = if options.len() == 1 && e.mode == Mode::Deducing {
            options[0]
        } else {
            d.value
        };
        assert(options.contains(v));
        e.board.lemma_with(d.cell, v);
        assert(input.at(d.cell) == 0);
        if input.consistent() {
            candidate_keeps_consistency(e.board, d.cell, v);
        }
    }
}

/// Whatever the draws, a run that starts from a well-formed `input` keeps
/// its clues, and breaks no rule unless `input` did.
pub proof fn run_keeps_soundness(input: Grid, draws: Seq<Draw>)
    requires
        input.wf(),
        Engine::start(input).follows(draws),
    ensures
        Engine::start(input).run(draws).sound_for(input),
    decreases draws.len(),
{
    if draws.len() > 0 {
        run_keeps_soundness(input, draws.drop_last());
        step_keeps_soundness(Engine::start(input).run(draws.drop_last()), input, draws.last());
    }
}

/// The clues stay: whatever the draws, every cell that `input` has filled
/// holds the same digit in the board that a run from `input` ends with.
pub proof fn clues_are_kept(input: Grid, draws: Seq<Draw>)
    requires
        input.wf(),
        Engine::start(input).follows(draws),
    ensures
        Engine::start(input).run(draws).board.extends(input),
{
    run_keeps_soundness(input, draws);
}

/// A run that ends without empty cells ends solved: if no digit stands
/// twice in a row, a column or a box of `input`, the board that the run
/// ends with holds every digit exactly once in each of them.
pub proof fn finished_run_is_solved(input: Grid, draws: Seq<Draw>)
    requires
        input.wf(),
        input.consistent(),
        Engine::start(input).follows(draws),
        Engine::start(input).run(draws).board.complete(),
    ensures
        Engine::start(input).run(draws).board.solved(),
{
    run_keeps_soundness(input, draws);
    complete_consistent_is_solved(Engine::start(input).run(draws).board);
}

/// A forced move made while deducing advances the checkpoint to the whole
/// new board, whatever the checkpoint held before.
pub proof fn forced_move_advances_checkpoint(e: Engine, d: Draw)
    requires
        e.mode == Mode::Deducing,
        e.board.candidates(d.cell).len() == 1,
    ensures
        e.next(d).checkpoint == e.next(d).board,
        e.next(d).board == e.board.with(d.cell, e.board.candidates(d.cell)[0]),
        e.next(d).mode == Mode::Deducing,
{
}

/// Once guessing, always guessing: no step leaves the mode `Guessing`, and
/// none that is made in it touches the checkpoint.
pub proof fn guessing_is_for_good(e: Engine, d: Draw)
    requires
        e.mode == Mode::Guessing,
    ensures
        e.next(d).mode == Mode::Guessing,
        e.next(d).checkpoint == e.checkpoint,
{
}

/// The same holds of a run: from a state that guesses, every run ends
/// guessing and with the checkpoint that it began with.
pub proof fn guessing_lasts(e: Engine, draws: Seq<Draw>)
    requires
        e.mode == Mode::Guessing,
    ensures
        e.run(draws).mode == Mode::Guessing,
        e.run(draws).checkpoint == e.checkpoint,
    decreases draws.len(),
{
    if draws.len() > 0 {
        guessing_lasts(e, draws.drop_last());
        guessing_is_for_good(e.run(draws.drop_last()), draws.last());
    }
}

/// The order of the cells settles which one the selector takes: only one
/// cell of a list is the first with the fewest candidates.
pub proof fn first_fewest_is_unique(g: Grid, cells: Seq<Position>, j: int, k: int)
    requires
        g.first_fewest(cells, j),
        g.first_fewest(cells, k),
    ensures
        j == k,
{
    if j < k {
        assert(g.candidates(cells[k]).len() < g.candidates(cells[j]).len());
    } else if k < j {
        assert(g.candidates(cells[j]).len() < g.candidates(cells[k]).len());
    }
}

/// Chance has its say through the draws alone: two runs from the same state
/// that meet the same draws, one after the other, end in the same state.
pub proof fn same_draws_same_run(e: Engine, first: Seq<Draw>, second: Seq<Draw>)
    requires
        first.len() == second.len(),
        forall|i: int| 0 <= i < first.len() ==> first[i] == second[i],
    ensures
        e.run(first) == e.run(second),
{
    assert(first =~= second);
}

/// Where an empty cell has no candidate left, the step can only go back:
/// the board becomes the checkpoint, and checkpoint and mode stay.
pub proof fn dead_end_rolls_back(e: Engine, d: Draw, q: Position)
    requires
        e.admits(d),
        q.in_grid(),
        e.board.at(q) == 0,
        e.board.candidates(q).len() == 0,
    ensures
        e.next(d).board == e.checkpoint,
        e.next(d).checkpoint == e.checkpoint,
        e.next(d).mode == e.mode,
{
}

/// From a board that a solution extends, some steps lead to the solution:
/// at most one for each of `open`, which lists the empty cells.
pub proof fn lemma_solution_within_reach(e: Engine, solution: Grid, open: Seq<Position>)
    requires
        e.board.wf(),
        solution.wf(),
        solution.complete(),
        solution.consistent(),
        solution.extends(e.board),
        forall|p: Position| p.in_grid() && #[trigger] e.board.at(p) == 0 ==> open.contains(p),
    ensures
        exists|draws: Seq<Draw>|
            {
                &&& #[trigger] e.follows(draws)
                &&& e.run(draws).board == solution
                &&& draws.len() <= open.len()
            },
    decreases open.len(),
{
    let g = e.board;
    if g.complete() {
        let none = Seq::<Draw>::empty();
        g.lemma_same_cells(solution);
        assert(e.follows(none) && e.run(none).board == solution);
    } else {
        g.lemma_empty_cells();
        let blanks = g.empty_cells();
        lemma_first_fewest_exists(g, blanks);
        let k = choose|k: int| #[trigger] g.first_fewest(blanks, k);
        let cell = blanks[k];
        assert(blanks.contains(cell));
        let value = solution.at(cell);
        let d = Draw { cell, value };
        g.lemma_candidates(cell);
        assert(!g.uses(cell, value)) by {
            if g.uses(cell, value) {
                let q = choose|q: Position|
                    q.in_grid() && cell.sees(q) && (#[trigger] g.at(q)) == value;
                assert(solution.at(q) == value);
                assert(solution.at(cell) != solution.at(q));
            }
        }
        let options = g.candidates(cell);
        assert(options.contains(value));
        assert forall|q: Position|
            #![trigger g.candidates(q)]
            q.in_grid() && g.at(q) == 0 implies options.len() <= g.candidates(q).len() by {
            assert(blanks.contains(q));
            let j = choose|j: int| 0 <= j < blanks.len() && blanks[j] == q;
            assert(g.candidates(blanks[k]).len() <= g.candidates(blanks[j]).len());
        }
        assert(e.admits(d));
        if options.len() == 1 {
            let i = choose|i: int| 0 <= i < options.len() && options[i] == value;
            assert(options[0] == value);
        }
        let after = e.next(d);
        assert(after.board == g.with(cell, value));
        g.lemma_with(cell, value);
        let i = choose|i: int| 0 <= i < open.len() && open[i] == cell;
        let left = open.remove(i);
        assert forall|p: Position| p.in_grid() && #[trigger] after.board.at(p) == 0 implies left.contains(
            p,
        ) by {
            assert(g.at(p) == 0 && p != cell);
            let j = choose|j: int| 0 <= j < open.len() && open[j] == p;
            if j < i {
                assert(left[j] == p);
            } else {
                assert(left[j - 1] == p);
            }
        }
        lemma_solution_within_reach(after, solution, left);
        let rest = choose|rest: Seq<Draw>|
            {
                &&& #[trigger] after.follows(rest)
                &&& after.run(rest).board == solution
                &&& rest.len() <= left.len()
            };
        lemma_run_after_step(e, d, rest);
        let draws = seq![d] + rest;
        assert(e.follows(draws) && e.run(draws).board == solution && draws.len() <= open.len());
    }
}

/// Chance can always find the way: for every solution of a puzzle, that
/// is, every solved grid that keeps the clues of `input`, there are draws
/// that lead the engine from `input` to it, in at most one step for each
/// cell of the grid.
pub proof fn every_solution_can_be_reached(input: Grid, solution: Grid)
    requires
        input.wf(),
        solution.wf(),
        solution.solved(),
        solution.extends(input),
    ensures
        exists|draws: Seq<Draw>|
            {
                &&& #[trigger] Engine::start(input).follows(draws)
                &&& Engine::start(input).run(draws).board == solution
                &&& draws.len() <= 81
            },
{
    solved_is_complete_and_consistent(solution);
    input.lemma_empty_cells();
    lemma_solution_within_reach(Engine::start(input), solution, input.empty_cells());
}

} // verus!
