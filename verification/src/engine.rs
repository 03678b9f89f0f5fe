//! The solve engine: forced placements while every move is certain, guesses
//! once a choice appears, and a return to the last certain grid whenever a
//! cell is left without candidates.

use crate::board::{Board, Grid, Position};
use crate::laws::run_keeps_soundness;
use crate::random::index_below;
use crate::rules::complete_consistent_is_solved;
use crate::select::{get_best_empty_position, get_empty_positions};
use vstd::prelude::*;

verus! {

/// How far the engine trusts its own placements.
#[derive(Copy, Clone, Debug, PartialEq, Eq, Structural)]
pub enum Mode {
    /// Every placement so far was forced; after each, the checkpoint is the
    /// board.
    Deducing,
    /// Some placement was a guess; the checkpoint stays where it is. The
    /// engine never leaves this mode again.
    Guessing,
}

/// What chance contributes to one step: the cell that the selector settles
/// on, and the digit drawn for it.
pub struct Draw {
    pub cell: Position,
    pub value: i8,
}

/// The model of the engine's state.
pub struct Engine {
    /// The working grid.
    pub board: Grid,
    /// The last grid in which every filled cell was certain.
    pub checkpoint: Grid,
    pub mode: Mode,
}

impl Engine {
    /// The state in which a solve begins.
    pub open spec fn start(input: Grid) -> Engine {
        Engine { board: input, checkpoint: input, mode: Mode::Deducing }
    }

    /// Whether a step in this state can come upon `d`: its cell is empty and
    /// no empty cell has fewer candidates, and its value is one of the
    /// cell's candidates, if the cell has any.
    pub open spec fn admits(self, d: Draw) -> bool {
        &&& d.cell.in_grid()
        &&& self.board.at(d.cell) == 0
        &&& forall|q: Position|
            #![trigger self.board.candidates(q)]
            q.in_grid() && self.board.at(q) == 0 ==> self.board.candidates(d.cell).len()
                <= self.board.candidates(q).len()
        &&& self.board.candidates(d.cell).len() > 0 ==> self.board.candidates(d.cell).contains(
            d.value,
        )
    }

    /// The state after a step that came upon `d`. A cell without candidates
    /// sends the board back to the checkpoint. A single candidate met while
    /// deducing goes into the board, and the checkpoint becomes the new
    /// board. Anything else is a guess: the value goes into the board alone,
    /// and the engine guesses from then on.
    pub open spec fn next(self, d: Draw) -> Engine {
        let options = self.board.candidates(d.cell);
        if options.len() == 0 {
            Engine { board: self.checkpoint, checkpoint: self.checkpoint, mode: self.mode }
        } else if options.len() == 1 && self.mode == Mode::Deducing {
            Engine {
                board: self.board.with(d.cell, options[0]),
                checkpoint: self.board.with(d.cell, options[0]),
                mode: Mode::Deducing,
            }
        } else {
            Engine {
                board: self.board.with(d.cell, d.value),
                checkpoint: self.checkpoint,
                mode: Mode::Guessing,
            }
        }
    }

    /// Whether a step that came upon `d` leads from this state to `after`.
    pub open spec fn steps_to(self, after: Engine, d: Draw) -> bool {
        self.admits(d) && after == self.next(d)
    }

    /// The state after one step for each of `draws`, in order.
    pub open spec fn run(self, draws: Seq<Draw>) -> Engine
        decreases draws.len(),
    {
        if draws.len() == 0 {
            self
        } else {
            self.run(draws.drop_last()).next(draws.last())
        }
    }

    /// Whether the steps of `draws` can follow one another from this state:
    /// each draw is admitted by the state that it meets.
    pub open spec fn follows(self, draws: Seq<Draw>) -> bool
        decreases draws.len(),
    {
        draws.len() == 0 || (self.follows(draws.drop_last()) && self.run(draws.drop_last()).admits(
            draws.last(),
        ))
    }
}

/// Every beginning of a sequence of steps that can follow one another can
/// do so too.
pub proof fn lemma_follows_prefix(e: Engine, draws: Seq<Draw>, n: int)
    requires
        e.follows(draws),
        0 <= n <= draws.len(),
    ensures
        e.follows(draws.take(n)),
    decreases draws.len(),
{
    if n < draws.len() {
        lemma_follows_prefix(e, draws.drop_last(), n);
        assert(draws.drop_last().take(n) == draws.take(n));
    } else {
        assert(draws.take(n) == draws);
    }
}

/// A step and then a run make a run: if the state admits `d` and the steps
/// of `rest` can follow from the state after it, then `d` and `rest` can
/// follow from here, to the same end.
pub proof fn lemma_run_after_step(e: Engine, d: Draw, rest: Seq<Draw>)
    requires
        e.admits(d),
        e.next(d).follows(rest),
    ensures
        e.follows(seq![d] + rest),
        e.run(seq![d] + rest) == e.next(d).run(rest),
    decreases rest.len(),
{
    let all = seq![d] + rest;
    if rest.len() == 0 {
        assert(all.drop_last() == Seq::<Draw>::empty());
        assert(all.last() == d);
        assert(e.follows(all.drop_last()));
        assert(e.run(all.drop_last()) == e);
    } else {
        lemma_run_after_step(e, d, rest.drop_last());
        assert(all.drop_last() == seq![d] + rest.drop_last());
        assert(all.last() == rest.last());
    }
}

/// The model of the state that the three parts of the engine make up.
pub open spec fn state(board: Board, checkpoint: Board, mode: Mode) -> Engine {
    Engine { board: board@, checkpoint: checkpoint@, mode }
}

/// Draws one of `values` at random.
pub fn select_random_value(values: &Vec<i8>) -> (value: i8)
    requires
        values@.len() > 0,
    ensures
        values@.contains(value),
{
    let mut rng = rand::thread_rng();
    let random_nr = index_below(values.len(), &mut rng);
    values[random_nr]
}

/// Makes one step. It returns `true`, and changes nothing, exactly if the
/// board has no empty cell. Otherwise it takes an empty cell with the fewest
/// candidates, ties broken by chance, and
/// - restores the board from the checkpoint, if the cell has no candidate;
/// - writes the cell's one candidate into the board and makes the
///   checkpoint a copy of the new board, if the cell has one candidate and
///   the mode is `Deducing`;
/// - else switches to `Guessing` and writes one of the candidates, drawn at
///   random, into the board alone.
pub fn step(board: &mut Board, checkpoint: &mut Board, mode: &mut Mode) -> (solved: bool)
    ensures
        solved == old(board)@.complete(),
        solved ==> state(*final(board), *final(checkpoint), *final(mode)) == state(
            *old(board),
            *old(checkpoint),
            *old(mode),
        ),
        !solved ==> exists|d: Draw| #[trigger]
            state(*old(board), *old(checkpoint), *old(mode)).steps_to(
                state(*final(board), *final(checkpoint), *final(mode)),
                d,
            ),
{
    let ghost before = state(*board, *checkpoint, *mode);
    let empty = get_empty_positions(*board);
    proof {
        board@.lemma_empty_cells();
    }
    if empty.len() < 1 {
        return true;
    }
    let (pos, possible_values) = get_best_empty_position(&empty, board);
    proof {
        let k = choose|k: int| #[trigger] board@.first_fewest(empty@, k) && pos == empty@[k];
        assert(empty@.contains(pos));
        assert forall|q: Position|
            #![trigger board@.candidates(q)]
            q.in_grid() && board@.at(q) == 0 implies board@.candidates(pos).len()
            <= board@.candidates(q).len() by {
            assert(empty@.contains(q));
            let j = choose|j: int| 0 <= j < empty@.len() && empty@[j] == q;
            assert(board@.candidates(empty@[k]).len() <= board@.candidates(empty@[j]).len());
        }
        board@.lemma_candidates(pos);
        use_type_invariant(&*board);
        use_type_invariant(&*checkpoint);
    }
    if possible_values.len() < 1 {
        *board = *checkpoint;
        proof {
            let d = Draw { cell: pos, value: 0 };
            assert(before.steps_to(state(*board, *checkpoint, *mode), d));
        }
        return false;
    }
    if possible_values.len() == 1 && *mode == Mode::Deducing {
        let value = possible_values[0];
        assert(possible_values@.contains(value));
        board.set(pos, value);
        *checkpoint = *board;
        proof {
            let d = Draw { cell: pos, value };
            assert(before.steps_to(state(*board, *checkpoint, *mode), d));
        }
    } else {
        *mode = Mode::Guessing;
        let guess = select_random_value(&possible_values);
        board.set(pos, guess);
        proof {
            let d = Draw { cell: pos, value: guess };
            assert(before.steps_to(state(*board, *checkpoint, *mode), d));
        }
    }
    false
}

/// Solves the puzzle: steps from `input` until a step finds the board
/// without empty cells, and returns that board with the number of steps
/// made, the last one included. The steps are counted in a `u32`; if the
/// count is used up before the board is complete, the result is `None`.
pub fn solve(input: Board) -> (outcome: Option<(Board, u32)>)
    ensures
        match outcome {
            Some((solution, steps)) => {
                &&& solution@.complete()
                &&& solution@.extends(input@)
                &&& (input@.consistent() ==> solution@.solved())
                &&& (input@.complete() ==> solution@ == input@)
                &&& (steps == 1 <==> input@.complete())
                &&& exists|draws: Seq<Draw>|
                    {
                        &&& #[trigger] Engine::start(input@).follows(draws)
                        &&& Engine::start(input@).run(draws).board == solution@
                        &&& draws.len() + 1 == steps
                    }
            },
            None => {
                &&& !input@.complete()
                &&& exists|draws: Seq<Draw>| #[trigger]
                    Engine::start(input@).follows(draws) && draws.len() == u32::MAX
            },
        },
{
    let mut board: Board = input;
    let mut checkpoint: Board = input;
    let mut mode = Mode::Deducing;
    let mut solved: bool = false;
    let mut stepcounter: u32 = 0;
    let ghost start = Engine::start(input@);
    let ghost mut draws: Seq<Draw> = Seq::empty();
    while !solved && stepcounter < u32::MAX
        invariant
            start == Engine::start(input@),
            start.follows(draws),
            start.run(draws) == state(board, checkpoint, mode),
            solved ==> board@.complete() && draws.len() + 1 == stepcounter,
            !solved ==> draws.len() == stepcounter,
        decreases u32::MAX - stepcounter,
    {
        let ghost before = state(board, checkpoint, mode);
        solved = step(&mut board, &mut checkpoint, &mut mode);
        stepcounter += 1;
        proof {
            if !solved {
                let d = choose|d: Draw| #[trigger]
                    before.steps_to(state(board, checkpoint, mode), d);
                assert(draws.push(d).drop_last() == draws);
                draws = draws.push(d);
            }
        }
    }
    proof {
        if draws.len() > 0 {
            lemma_follows_prefix(start, draws, 1);
            assert(draws.take(1).drop_last() == Seq::<Draw>::empty());
            assert(start.admits(draws.take(1).last()));
        }
    }
    if !solved {
        return None;
    }
    proof {
        use_type_invariant(&input);
        run_keeps_soundness(input@, draws);
        if input@.consistent() {
            complete_consistent_is_solved(board@);
        }
    }
    Some((board, stepcounter))
}

} // verus!
