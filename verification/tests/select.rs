use sudoku_solver::select::scan_empty_positions;
use sudoku_solver::{get_best_empty_position, get_empty_positions, Board, Position};

const PUZZLE: [[i8; 9]; 9] = [
    [2, 3, 5, 0, 0, 0, 0, 7, 0],
    [0, 0, 0, 0, 0, 0, 5, 8, 0],
    [0, 0, 0, 0, 6, 0, 0, 0, 4],
    [0, 0, 0, 2, 0, 0, 0, 0, 0],
    [0, 0, 0, 3, 0, 5, 0, 9, 2],
    [8, 4, 0, 0, 0, 0, 0, 0, 0],
    [3, 0, 0, 0, 0, 8, 7, 0, 0],
    [0, 0, 1, 0, 0, 2, 9, 0, 0],
    [9, 0, 0, 1, 0, 0, 0, 2, 3],
];

const SOLUTION: [[i8; 9]; 9] = [
    [2, 3, 5, 8, 1, 4, 6, 7, 9],
    [4, 6, 9, 7, 2, 3, 5, 8, 1],
    [1, 7, 8, 5, 6, 9, 2, 3, 4],
    [5, 9, 3, 2, 8, 6, 1, 4, 7],
    [6, 1, 7, 3, 4, 5, 8, 9, 2],
    [8, 4, 2, 9, 7, 1, 3, 5, 6],
    [3, 2, 4, 6, 9, 8, 7, 1, 5],
    [7, 5, 1, 4, 3, 2, 9, 6, 8],
    [9, 8, 6, 1, 5, 7, 4, 2, 3],
];

fn puzzle() -> Board {
    Board::from_rows(PUZZLE).unwrap()
}

fn row_major(mut cells: Vec<Position>) -> Vec<Position> {
    cells.sort_by_key(|p| (p.y, p.x));
    cells
}

#[test]
fn the_scan_lists_empty_cells_row_by_row() {
    let mut rows = SOLUTION;
    rows[0][4] = 0;
    rows[0][7] = 0;
    rows[5][0] = 0;
    rows[8][8] = 0;
    let board = Board::from_rows(rows).unwrap();
    assert_eq!(
        scan_empty_positions(&board),
        vec![
            Position { x: 4, y: 0 },
            Position { x: 7, y: 0 },
            Position { x: 0, y: 5 },
            Position { x: 8, y: 8 },
        ]
    );
}

#[test]
fn the_scan_of_an_empty_board_has_all_cells() {
    let cells = scan_empty_positions(&Board::empty());
    assert_eq!(cells.len(), 81);
    assert_eq!(cells[0], Position { x: 0, y: 0 });
    assert_eq!(cells[1], Position { x: 1, y: 0 });
    assert_eq!(cells[9], Position { x: 0, y: 1 });
    assert_eq!(cells[80], Position { x: 8, y: 8 });
}

#[test]
fn a_full_board_has_no_empty_position() {
    let board = Board::from_rows(SOLUTION).unwrap();
    assert!(scan_empty_positions(&board).is_empty());
    assert!(get_empty_positions(board).is_empty());
}

#[test]
fn the_shuffled_list_holds_each_empty_cell_once() {
    let board = puzzle();
    let expected = scan_empty_positions(&board);
    assert_eq!(expected.len(), 56);
    for _ in 0..20 {
        let cells = get_empty_positions(board);
        assert_eq!(row_major(cells), expected);
    }
}

#[test]
fn the_shuffled_list_holds_only_empty_cells() {
    let board = puzzle();
    for p in get_empty_positions(board) {
        assert!(p.is_in_grid());
        assert_eq!(board.get(p), 0);
    }
}

#[test]
fn the_order_of_the_list_is_left_to_chance() {
    let board = Board::empty();
    let scanned = scan_empty_positions(&board);
    let mut moved = false;
    for _ in 0..20 {
        if get_empty_positions(board) != scanned {
            moved = true;
        }
    }
    assert!(moved);
}

#[test]
fn no_cells_give_no_position() {
    let (position, values) = get_best_empty_position(&Vec::new(), &puzzle());
    assert_eq!(position, Position::none());
    assert!(values.is_empty());
}

#[test]
fn the_cell_with_the_fewest_candidates_wins() {
    let cells = vec![
        Position { x: 4, y: 1 },
        Position { x: 3, y: 0 },
        Position { x: 6, y: 0 },
        Position { x: 4, y: 4 },
    ];
    let (position, values) = get_best_empty_position(&cells, &puzzle());
    assert_eq!(position, Position { x: 6, y: 0 });
    assert_eq!(values.len(), 2);
}

#[test]
fn among_equals_the_first_in_the_list_wins() {
    let board = puzzle();
    let first = vec![
        Position { x: 3, y: 0 },
        Position { x: 0, y: 2 },
        Position { x: 6, y: 0 },
        Position { x: 7, y: 2 },
    ];
    assert_eq!(get_best_empty_position(&first, &board).0, Position { x: 0, y: 2 });
    let second = vec![
        Position { x: 7, y: 2 },
        Position { x: 3, y: 0 },
        Position { x: 0, y: 2 },
        Position { x: 6, y: 0 },
    ];
    assert_eq!(get_best_empty_position(&second, &board).0, Position { x: 7, y: 2 });
}

#[test]
fn the_winner_comes_with_its_candidates() {
    let board = puzzle();
    let cells = vec![Position { x: 4, y: 4 }, Position { x: 3, y: 0 }, Position { x: 8, y: 0 }];
    let (position, values) = get_best_empty_position(&cells, &board);
    assert_eq!(position, Position { x: 3, y: 0 });
    assert_eq!(values, vec![4, 8, 9]);
}

#[test]
fn a_single_cell_wins_whatever_it_has() {
    let cells = vec![Position { x: 4, y: 1 }];
    let (position, values) = get_best_empty_position(&cells, &puzzle());
    assert_eq!(position, Position { x: 4, y: 1 });
    assert_eq!(values.len(), 6);
}

#[test]
fn a_dead_end_wins_with_no_candidates() {
    let mut rows = [[0i8; 9]; 9];
    rows[0] = [1, 2, 3, 4, 5, 6, 7, 8, 0];
    rows[3][8] = 9;
    let board = Board::from_rows(rows).unwrap();
    let cells = scan_empty_positions(&board);
    let (position, values) = get_best_empty_position(&cells, &board);
    assert_eq!(position, Position { x: 8, y: 0 });
    assert!(values.is_empty());
}

#[test]
fn the_best_of_all_empty_cells_has_the_fewest_candidates() {
    let board = puzzle();
    let cells = get_empty_positions(board);
    let (position, values) = get_best_empty_position(&cells, &board);
    let fewest = [
        Position { x: 6, y: 0 },
        Position { x: 0, y: 2 },
        Position { x: 7, y: 2 },
        Position { x: 2, y: 4 },
    ];
    assert!(fewest.contains(&position));
    assert_eq!(values.len(), 2);
}
