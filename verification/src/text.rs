//! Boards as text: reading a puzzle from its lines, and writing a board out.

use crate::board::{Board, Grid, Position};
use vstd::prelude::*;
use vstd::string::*;

verus! {

/// The cell that a character of a puzzle stands for: its value for a digit
/// from '0' to '9', and an empty cell for any other character.
pub open spec fn cell_of(c: char) -> i8 {
    if '0' <= c && c <= '9' {
        (c as int - '0' as int) as i8
    } else {
        0
    }
}

/// The cell that the text `lines` gives for position `p`: the character `p.x`
/// of line `p.y`, read as a cell, and an empty cell where the text has no
/// such line or the line no such character.
pub open spec fn cell_in(lines: Seq<String>, p: Position) -> i8 {
    if p.y < lines.len() && p.x < lines[p.y as int]@.len() {
        cell_of(lines[p.y as int]@[p.x as int])
    } else {
        0
    }
}

/// The grid that the text `lines` describes. Lines after the ninth and
/// characters after the ninth of a line are not read.
pub open spec fn grid_in(lines: Seq<String>) -> Grid {
    Grid {
        rows: Seq::new(
            9,
            |y: int| Seq::new(9, |x: int| cell_in(lines, Position { x: x as i8, y: y as i8 })),
        ),
    }
}

/// The character that stands for the content of a cell.
pub open spec fn char_of(v: i8) -> char {
    ('0' as int + v) as char
}

/// A row as nine digits.
pub open spec fn plain_line(row: Seq<i8>) -> Seq<char> {
    Seq::new(9, |x: int| char_of(row[x]))
}

/// The first `n` cells of a row, separated by a comma and a space.
pub open spec fn listed(row: Seq<i8>, n: nat) -> Seq<char>
    decreases n,
{
    if n == 0 {
        Seq::empty()
    } else if n == 1 {
        seq![char_of(row[0])]
    } else {
        listed(row, (n - 1) as nat) + seq![',', ' ', char_of(row[n - 1])]
    }
}

/// A row as a list in square brackets, after two spaces.
pub open spec fn verbose_line(row: Seq<i8>) -> Seq<char> {
    seq![' ', ' ', '['] + listed(row, 9) + seq![']']
}

/// Reads a character of a puzzle as a cell.
pub fn read_cell(c: char) -> (v: i8)
    ensures
        v == cell_of(c),
        0 <= v <= 9,
{
    match c {
        '1' => 1,
        '2' => 2,
        '3' => 3,
        '4' => 4,
        '5' => 5,
        '6' => 6,
        '7' => 7,
        '8' => 8,
        '9' => 9,
        _ => 0,
    }
}

/// Reads a puzzle from the lines of its text: line `y` gives row `y`, its
/// character `x` the cell in column `x`. A digit gives its value, any other
/// character an empty cell, and so does whatever the text lacks.
pub fn parse_board(lines: &Vec<String>) -> (board: Board)
    ensures
        board@ == grid_in(lines@),
{
    let mut board = Board::empty();
    let mut y: usize = 0;
    while y < 9 && y < lines.len()
        invariant
            0 <= y <= 9,
            board@.wf(),
            forall|p: Position|
                p.in_grid() ==> #[trigger] board@.at(p) == (if p.y < y {
                    cell_in(lines@, p)
                } else {
                    0
                }),
        decreases 9 - y,
    {
        let line = lines[y].as_str();
        let width = line.unicode_len();
        let mut x: usize = 0;
        while x < 9 && x < width
            invariant
                0 <= y < 9,
                y < lines@.len(),
                0 <= x <= 9,
                line@ == lines@[y as int]@,
                width == line@.len(),
                board@.wf(),
                forall|p: Position|
                    p.in_grid() ==> #[trigger] board@.at(p) == (if p.y < y || (p.y == y && p.x < x) {
                        cell_in(lines@, p)
                    } else {
                        0
                    }),
            decreases 9 - x,
        {
            let here = Position { x: x as i8, y: y as i8 };
            let value = read_cell(line.get_char(x));
            proof {
                board@.lemma_with(here, value);
            }
            board.set(here, value);
            x += 1;
        }
        y += 1;
    }
    proof {
        let read = grid_in(lines@);
        assert forall|p: Position| p.in_grid() implies #[trigger] board@.at(p) == read.at(p) by {
            assert(read.at(p) == cell_in(lines@, p));
        }
        assert(read.wf()) by {
            assert forall|p: Position| p.in_grid() implies 0 <= #[trigger] read.at(p) <= 9 by {
                assert(read.at(p) == cell_in(lines@, p));
            }
        }
        board@.lemma_same_cells(read);
    }
    board
}

/// The text of one cell.
pub fn cell_text(v: i8) -> (text: &'static str)
    requires
        0 <= v <= 9,
    ensures
        text@ == seq![char_of(v)],
{
    proof {
        reveal_strlit("0");
        reveal_strlit("1");
        reveal_strlit("2");
        reveal_strlit("3");
        reveal_strlit("4");
        reveal_strlit("5");
        reveal_strlit("6");
        reveal_strlit("7");
        reveal_strlit("8");
        reveal_strlit("9");
    }
    let text = match v {
        0 => "0",
        1 => "1",
        2 => "2",
        3 => "3",
        4 => "4",
        5 => "5",
        6 => "6",
        7 => "7",
        8 => "8",
        _ => "9",
    };
    assert(text@ =~= seq![char_of(v)]);
    text
}

/// Writes one row of the board: as nine digits, or, if `verbose`, as a list
/// in square brackets after two spaces.
pub fn render_row(board: &Board, y: usize, verbose: bool) -> (line: String)
    requires
        y < 9,
    ensures
        line@ == if verbose {
            verbose_line(board@.rows[y as int])
        } else {
            plain_line(board@.rows[y as int])
        },
{
    let ghost row = board@.rows[y as int];
    let mut line = String::new();
    if verbose {
        proof {
            reveal_strlit("  [");
        }
        line.append("  [");
    }
    let ghost head = line@;
    let mut x: usize = 0;
    while x < 9
        invariant
            0 <= x <= 9,
            y < 9,
            row == board@.rows[y as int],
            head == if verbose {
                seq![' ', ' ', '[']
            } else {
                Seq::<char>::empty()
            },
            verbose ==> line@ == head + listed(row, x as nat),
            !verbose ==> line@.len() == x && forall|i: int|
                0 <= i < x ==> line@[i] == char_of(row[i]),
        decreases 9 - x,
    {
        if verbose && x > 0 {
            proof {
                reveal_strlit(", ");
            }
            line.append(", ");
        }
        let value = board.get(Position { x: x as i8, y: y as i8 });
        line.append(cell_text(value));
        proof {
            if verbose {
                assert(line@ =~= head + listed(row, (x + 1) as nat));
            }
        }
        x += 1;
    }
    if verbose {
        proof {
            reveal_strlit("]");
        }
        line.append("]");
        assert(line@ =~= verbose_line(row));
    } else {
        assert(line@ =~= plain_line(row));
    }
    line
}

/// Writes the board as nine lines, row by row: nine digits each, or, if
/// `verbose`, each row as a list in square brackets after two spaces.
pub fn render(board: Board, verbose: bool) -> (lines: Vec<String>)
    ensures
        lines@.len() == 9,
        forall|y: int|
            0 <= y < 9 ==> (#[trigger] lines@[y])@ == if verbose {
                verbose_line(board@.rows[y])
            } else {
                plain_line(board@.rows[y])
            },
{
    let mut lines: Vec<String> = Vec::with_capacity(9);
    let mut y: usize = 0;
    while y < 9
        invariant
            0 <= y <= 9,
            lines@.len() == y,
            forall|k: int|
                0 <= k < y ==> (#[trigger] lines@[k])@ == if verbose {
                    verbose_line(board@.rows[k])
                } else {
                    plain_line(board@.rows[k])
                },
        decreases 9 - y,
    {
        let line = render_row(&board, y, verbose);
        lines.push(line);
        y += 1;
    }
    lines
}

} // verus!
