use crate::board::{count, next_state, BoardView, Color, LoadError, Move};
use vstd::prelude::*;

verus! {

// A board fixture is 6 lines of 7 symbols, separated by '\n'; its first line
// is the top row. `r` and `b` are chips, `R` and `B` the one chip of the last
// move, and `.` an empty cell. Line `k` of a text whose earlier lines are
// well formed starts at position `8 * k`.

/// A symbol of the last move.
pub open spec fn is_mark(c: char) -> bool {
    c == 'R' || c == 'B'
}

/// A symbol that may stand in a cell.
pub open spec fn is_symbol(c: char) -> bool {
    c == 'r' || c == 'b' || is_mark(c) || c == '.'
}

/// What a cell symbol holds.
pub open spec fn chip_of(c: char) -> Option<Color> {
    if c == 'r' || c == 'R' {
        Some(Color::Red)
    } else if c == 'b' || c == 'B' {
        Some(Color::Blue)
    } else {
        None
    }
}

/// Number of line breaks in `t`.
pub open spec fn newlines(t: Seq<char>) -> nat
    decreases t.len(),
{
    if t.len() == 0 {
        0
    } else {
        newlines(t.drop_last()) + if t.last() == '\n' {
            1nat
        } else {
            0nat
        }
    }
}

/// Line `k`, from position `8 * k`, is 7 characters long.
pub open spec fn row_ok(t: Seq<char>, k: int) -> bool {
    &&& 8 * k + 7 <= t.len()
    &&& forall|p: int| 8 * k <= p < 8 * k + 7 ==> #[trigger] t[p] != '\n'
    &&& (8 * k + 7 == t.len() || t[8 * k + 7] == '\n')
}

/// A mark stands before position `p`.
pub open spec fn mark_before(t: Seq<char>, p: int) -> bool {
    exists|q: int| 0 <= q < p && #[trigger] is_mark(t[q])
}

/// What is wrong with the symbol at position `p`, if anything: it is no
/// symbol, or it is a second mark.
pub open spec fn symbol_error(t: Seq<char>, p: int) -> Option<LoadError> {
    if !is_symbol(t[p]) {
        Some(LoadError::InvalidText)
    } else if is_mark(t[p]) && mark_before(t, p) {
        Some(LoadError::ExtraLastMove)
    } else {
        None
    }
}

/// The first error among the symbols of line `k` from column `j` on.
pub open spec fn line_error(t: Seq<char>, k: int, j: int) -> Option<LoadError>
    decreases 7 - j,
{
    if j >= 7 {
        None
    } else {
        match symbol_error(t, 8 * k + j) {
            Some(e) => Some(e),
            None => line_error(t, k, j + 1),
        }
    }
}

/// The first error met reading lines `k` to 5, top to bottom: a line of the
/// wrong length, or a wrong symbol.
pub open spec fn grid_error(t: Seq<char>, k: int) -> Option<LoadError>
    decreases 6 - k,
{
    if k >= 6 {
        None
    } else if !row_ok(t, k) {
        Some(LoadError::InvalidSize)
    } else {
        match line_error(t, k, 0) {
            Some(e) => Some(e),
            None => grid_error(t, k + 1),
        }
    }
}

/// Position in the text of the symbol of column `c`, row `r`.
pub open spec fn text_pos(c: int, r: int) -> int {
    8 * (5 - r) + c
}

/// The cells that the text describes, in the order of a board's cells.
pub open spec fn grid_cells(t: Seq<char>) -> Seq<Option<Color>> {
    Seq::new(42, |i: int| chip_of(t[text_pos(i / 6, i % 6)]))
}

/// Position of the mark in the grid.
pub open spec fn mark_pos(t: Seq<char>) -> int {
    choose|p: int| 0 <= p < 47 && #[trigger] is_mark(t[p])
}

/// The move that the mark records.
pub open spec fn marked_move(t: Seq<char>) -> Move {
    let p = mark_pos(t);
    Move { color: chip_of(t[p])->Some_0, col: (p % 8) as usize, row: (5 - p / 8) as usize }
}

/// Why `t` is no board, if it is none: in this order, a wrong number of
/// lines, the first error in reading order, move counts that differ by more
/// than one, no mark.
pub open spec fn load_error(t: Seq<char>) -> Option<LoadError> {
    if newlines(t) != 5 {
        Some(LoadError::InvalidSize)
    } else {
        match grid_error(t, 0) {
            Some(e) => Some(e),
            None => {
                let red = count(grid_cells(t), Some(Color::Red)) as int;
                let blue = count(grid_cells(t), Some(Color::Blue)) as int;
                if red > blue + 1 || blue > red + 1 {
                    Some(LoadError::InvalidMoves)
                } else if !mark_before(t, 47) {
                    Some(LoadError::NoLastMove)
                } else {
                    None
                }
            },
        }
    }
}

/// The board that a well-formed text describes; its state is derived from
/// the marked move as a live drop would derive it.
pub open spec fn loaded_view(t: Seq<char>) -> BoardView {
    let cells = grid_cells(t);
    let red = count(cells, Some(Color::Red)) as int;
    let blue = count(cells, Some(Color::Blue)) as int;
    BoardView {
        cells,
        red,
        blue,
        last_move: Some(marked_move(t)),
        state: next_state(cells, marked_move(t), red + blue),
    }
}

/// The characters of `s`, one entry each.
pub fn chars_of(s: &str) -> (r: Vec<char>)
    ensures
        r@ == s@,
{
    let mut v: Vec<char> = Vec::new();
    for c in it: s.chars()
        invariant
            v@ == it.seq().take(it.index() as int),
    {
        v.push(c);
    }
    v
}

} // verus!
