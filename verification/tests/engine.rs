use sudoku_solver::{select_random_value, solve, step, Board, Mode, Position};

const PUZZLE: [[i8; 9]; 9] = [
    [2, 3, 5, 0, 0, 0, 0, 7, 0],
    [0, 0, 0, 0, 0, 0, 5, 8, 0],
    [0, 0, 0, 0, 6, 0, 0, 0, 4],
    [0, 0, 0, 2, 0, 0, 0, 0, 0],
    [0, 0, 0, 3, 0, 5, 0, 9, 2],
    [8, 4, 0, 0, 0, 0, 0, 0, 0],
    [3, 0, 0, 0, 0, 8, 7, 0, 0],
    [0, 0, 1, 0, 0, 2, 9, 0, 0],
    [9, 0, 0, 1, 0, 0, 0, 2, 3],
];

const FORCED: [[i8; 9]; 9] = [
    [2, 3, 5, 0, 0, 0, 0, 0, 9],
    [4, 0, 0, 0, 0, 0, 0, 8, 0],
    [0, 7, 0, 0, 0, 0, 0, 3, 0],
    [5, 0, 3, 2, 0, 0, 0, 0, 0],
    [0, 0, 0, 0, 4, 0, 0, 0, 0],
    [0, 0, 2, 9, 7, 1, 0, 0, 0],
    [0, 0, 0, 0, 0, 8, 7, 0, 0],
    [0, 0, 0, 0, 3, 0, 9, 6, 0],
    [9, 0, 6, 0, 0, 0, 4, 2, 0],
];

const SOLUTION: [[i8; 9]; 9] = [
    [2, 3, 5, 8, 1, 4, 6, 7, 9],
    [4, 6, 9, 7, 2, 3, 5, 8, 1],
    [1, 7, 8, 5, 6, 9, 2, 3, 4],
    [5, 9, 3, 2, 8, 6, 1, 4, 7],
    [6, 1, 7, 3, 4, 5, 8, 9, 2],
    [8, 4, 2, 9, 7, 1, 3, 5, 6],
    [3, 2, 4, 6, 9, 8, 7, 1, 5],
    [7, 5, 1, 4, 3, 2, 9, 6, 8],
    [9, 8, 6, 1, 5, 7, 4, 2, 3],
];

fn board(rows: [[i8; 9]; 9]) -> Board {
    Board::from_rows(rows).unwrap()
}

fn holds_each_digit_once(cells: [i8; 9]) -> bool {
    let mut seen = [0u8; 10];
    for v in cells {
        if v < 1 || v > 9 {
            return false;
        }
        seen[v as usize] += 1;
    }
    seen[1..].iter().all(|&n| n == 1)
}

fn is_valid_solution(rows: [[i8; 9]; 9]) -> bool {
    for i in 0..9 {
        let mut column = [0i8; 9];
        let mut block = [0i8; 9];
        for j in 0..9 {
            column[j] = rows[j][i];
            block[j] = rows[i / 3 * 3 + j / 3][i % 3 * 3 + j % 3];
        }
        if !holds_each_digit_once(rows[i])
            || !holds_each_digit_once(column)
            || !holds_each_digit_once(block)
        {
            return false;
        }
    }
    true
}

fn keeps_clues(solution: [[i8; 9]; 9], puzzle: [[i8; 9]; 9]) -> bool {
    for y in 0..9 {
        for x in 0..9 {
            if puzzle[y][x] != 0 && solution[y][x] != puzzle[y][x] {
                return false;
            }
        }
    }
    true
}

fn differing_cells(a: [[i8; 9]; 9], b: [[i8; 9]; 9]) -> Vec<Position> {
    let mut cells = Vec::new();
    for y in 0..9 {
        for x in 0..9 {
            if a[y][x] != b[y][x] {
                cells.push(Position { x: x as i8, y: y as i8 });
            }
        }
    }
    cells
}

#[test]
fn a_random_value_is_one_of_the_values() {
    let values = vec![2, 5, 9];
    for _ in 0..100 {
        assert!(values.contains(&select_random_value(&values)));
    }
}

#[test]
fn a_single_value_is_always_drawn() {
    for _ in 0..20 {
        assert_eq!(select_random_value(&vec![7]), 7);
    }
}

#[test]
fn every_value_is_drawn_sooner_or_later() {
    let values = vec![3, 7];
    let mut seen = [false; 10];
    for _ in 0..400 {
        seen[select_random_value(&values) as usize] = true;
    }
    assert!(seen[3] && seen[7]);
}

#[test]
fn a_step_on_a_full_board_tells_so_and_changes_nothing() {
    let mut work = board(SOLUTION);
    let mut checkpoint = board(PUZZLE);
    let mut mode = Mode::Deducing;
    assert!(step(&mut work, &mut checkpoint, &mut mode));
    assert_eq!(work.rows(), SOLUTION);
    assert_eq!(checkpoint.rows(), PUZZLE);
    assert_eq!(mode, Mode::Deducing);
    let mut mode = Mode::Guessing;
    assert!(step(&mut work, &mut checkpoint, &mut mode));
    assert_eq!(work.rows(), SOLUTION);
    assert_eq!(checkpoint.rows(), PUZZLE);
    assert_eq!(mode, Mode::Guessing);
}

#[test]
fn a_forced_move_while_deducing_advances_board_and_checkpoint() {
    let mut work = board(FORCED);
    let mut checkpoint = board(FORCED);
    let mut mode = Mode::Deducing;
    assert!(!step(&mut work, &mut checkpoint, &mut mode));
    let mut expected = FORCED;
    expected[3][5] = 6;
    assert_eq!(work.rows(), expected);
    assert_eq!(checkpoint.rows(), expected);
    assert_eq!(mode, Mode::Deducing);
}

#[test]
fn a_forced_move_while_deducing_makes_the_checkpoint_the_new_board() {
    let mut behind = FORCED;
    behind[0][0] = 0;
    behind[8][0] = 0;
    behind[4][4] = 0;
    let mut work = board(FORCED);
    let mut checkpoint = board(behind);
    let mut mode = Mode::Deducing;
    assert!(!step(&mut work, &mut checkpoint, &mut mode));
    let mut expected = FORCED;
    expected[3][5] = 6;
    assert_eq!(work.rows(), expected);
    assert_eq!(checkpoint.rows(), expected);
    assert_eq!(mode, Mode::Deducing);
}

#[test]
fn a_forced_move_while_deducing_overwrites_a_checkpoint_that_is_ahead() {
    let mut work = board(FORCED);
    let mut checkpoint = board(SOLUTION);
    let mut mode = Mode::Deducing;
    assert!(!step(&mut work, &mut checkpoint, &mut mode));
    let mut expected = FORCED;
    expected[3][5] = 6;
    assert_eq!(work.rows(), expected);
    assert_eq!(checkpoint.rows(), expected);
    assert_eq!(mode, Mode::Deducing);
}

#[test]
fn a_forced_move_while_guessing_leaves_the_checkpoint() {
    let mut work = board(FORCED);
    let mut checkpoint = board(FORCED);
    let mut mode = Mode::Guessing;
    assert!(!step(&mut work, &mut checkpoint, &mut mode));
    let mut expected = FORCED;
    expected[3][5] = 6;
    assert_eq!(work.rows(), expected);
    assert_eq!(checkpoint.rows(), FORCED);
    assert_eq!(mode, Mode::Guessing);
}

#[test]
fn a_choice_turns_the_engine_to_guessing_and_places_a_guess() {
    let options: [(Position, [i8; 2]); 4] = [
        (Position { x: 6, y: 0 }, [1, 6]),
        (Position { x: 0, y: 2 }, [1, 7]),
        (Position { x: 7, y: 2 }, [1, 3]),
        (Position { x: 2, y: 4 }, [6, 7]),
    ];
    for _ in 0..50 {
        let mut work = board(PUZZLE);
        let mut checkpoint = board(PUZZLE);
        let mut mode = Mode::Deducing;
        assert!(!step(&mut work, &mut checkpoint, &mut mode));
        assert_eq!(mode, Mode::Guessing);
        assert_eq!(checkpoint.rows(), PUZZLE);
        let changed = differing_cells(work.rows(), PUZZLE);
        assert_eq!(changed.len(), 1);
        let value = work.get(changed[0]);
        assert!(options.iter().any(|(cell, values)| *cell == changed[0] && values.contains(&value)));
    }
}

#[test]
fn a_dead_end_restores_the_checkpoint_exactly() {
    let mut guessed = PUZZLE;
    guessed[0][3] = 4;
    guessed[0][4] = 8;
    guessed[0][5] = 9;
    guessed[0][6] = 1;
    guessed[1][8] = 6;
    for start in [Mode::Guessing, Mode::Deducing] {
        let mut work = board(guessed);
        let mut checkpoint = board(PUZZLE);
        let mut mode = start;
        assert!(!step(&mut work, &mut checkpoint, &mut mode));
        assert_eq!(work.rows(), PUZZLE);
        assert_eq!(checkpoint.rows(), PUZZLE);
        assert_eq!(mode, start);
    }
}

#[test]
fn a_dead_end_comes_before_any_other_move() {
    let mut rows = [[0i8; 9]; 9];
    rows[0] = [1, 2, 3, 4, 5, 6, 7, 8, 0];
    rows[3][8] = 9;
    let mut kept = [[0i8; 9]; 9];
    kept[0] = [1, 2, 3, 0, 0, 0, 0, 0, 0];
    for _ in 0..20 {
        let mut work = board(rows);
        let mut checkpoint = board(kept);
        let mut mode = Mode::Guessing;
        assert!(!step(&mut work, &mut checkpoint, &mut mode));
        assert_eq!(work.rows(), kept);
        assert_eq!(checkpoint.rows(), kept);
        assert_eq!(mode, Mode::Guessing);
    }
}

#[test]
fn a_full_board_is_returned_unchanged_after_one_step() {
    let (solution, steps) = solve(board(SOLUTION)).unwrap();
    assert_eq!(solution.rows(), SOLUTION);
    assert_eq!(steps, 1);
}

#[test]
fn a_full_board_is_returned_even_if_it_breaks_the_rules() {
    let mut rows = SOLUTION;
    rows[0][0] = 3;
    let (solution, steps) = solve(board(rows)).unwrap();
    assert_eq!(solution.rows(), rows);
    assert_eq!(steps, 1);
}

#[test]
fn one_missing_cell_takes_two_steps() {
    let mut rows = SOLUTION;
    rows[4][4] = 0;
    let (solution, steps) = solve(board(rows)).unwrap();
    assert_eq!(solution.rows(), SOLUTION);
    assert_eq!(steps, 2);
}

#[test]
fn forced_moves_alone_take_one_step_for_each_cell_and_one_more() {
    let (solution, steps) = solve(board(FORCED)).unwrap();
    assert_eq!(solution.rows(), SOLUTION);
    assert_eq!(steps, 57);
}

#[test]
fn where_chance_has_no_say_two_runs_agree() {
    let first = solve(board(FORCED)).unwrap();
    let second = solve(board(FORCED)).unwrap();
    assert_eq!(first.0.rows(), second.0.rows());
    assert_eq!(first.1, second.1);
}

#[test]
fn the_puzzle_is_solved_and_its_clues_kept() {
    let (solution, steps) = solve(board(PUZZLE)).unwrap();
    let rows = solution.rows();
    for y in 0..9 {
        for x in 0..9 {
            assert_ne!(rows[y][x], 0);
        }
    }
    assert!(is_valid_solution(rows));
    assert_eq!(rows[0][0], 2);
    assert_eq!(rows[0][1], 3);
    assert_eq!(rows[0][2], 5);
    assert_eq!(rows[0][7], 7);
    assert_eq!(rows[8][0], 9);
    assert_eq!(rows[8][3], 1);
    assert_eq!(rows[8][7], 2);
    assert_eq!(rows[8][8], 3);
    assert!(keeps_clues(rows, PUZZLE));
    assert!(steps > 56);
}

#[test]
fn a_puzzle_with_one_solution_always_ends_in_it() {
    for _ in 0..5 {
        let (solution, _) = solve(board(PUZZLE)).unwrap();
        assert_eq!(solution.rows(), SOLUTION);
    }
}

#[test]
fn an_empty_board_is_filled_by_the_rules() {
    let (solution, steps) = solve(Board::empty()).unwrap();
    assert!(is_valid_solution(solution.rows()));
    assert!(solution.is_solved());
    assert!(steps >= 82);
}

#[test]
fn the_input_is_left_as_it_was() {
    let input = board(FORCED);
    let _ = solve(input);
    assert_eq!(input.rows(), FORCED);
}

#[test]
fn every_state_of_a_run_keeps_the_clues_and_the_rules() {
    let mut work = board(PUZZLE);
    let mut checkpoint = board(PUZZLE);
    let mut mode = Mode::Deducing;
    let mut frozen: Option<[[i8; 9]; 9]> = None;
    let mut steps = 0u32;
    loop {
        let was = mode;
        let done = step(&mut work, &mut checkpoint, &mut mode);
        steps += 1;
        assert!(keeps_clues(work.rows(), PUZZLE));
        assert!(keeps_clues(checkpoint.rows(), PUZZLE));
        assert!(keeps_clues(work.rows(), checkpoint.rows()));
        assert!(work.is_consistent());
        assert!(checkpoint.is_consistent());
        if mode == Mode::Deducing {
            assert_eq!(work.rows(), checkpoint.rows());
        }
        if was == Mode::Guessing {
            assert_eq!(mode, Mode::Guessing);
        }
        match frozen {
            Some(rows) => assert_eq!(checkpoint.rows(), rows),
            None => {
                if mode == Mode::Guessing {
                    frozen = Some(checkpoint.rows());
                }
            }
        }
        if done {
            break;
        }
        assert!(steps < 10_000_000);
    }
    assert_eq!(work.rows(), SOLUTION);
}

#[test]
fn deducing_alone_never_turns_to_guessing() {
    let mut work = board(FORCED);
    let mut checkpoint = board(FORCED);
    let mut mode = Mode::Deducing;
    let mut steps = 0u32;
    while !step(&mut work, &mut checkpoint, &mut mode) {
        steps += 1;
        assert_eq!(mode, Mode::Deducing);
        assert_eq!(work.rows(), checkpoint.rows());
        assert!(steps <= 56);
    }
    assert_eq!(steps, 56);
    assert_eq!(work.rows(), SOLUTION);
    assert_eq!(checkpoint.rows(), SOLUTION);
}
