use crate::text::{
    chars_of, chip_of, grid_cells, grid_error, is_mark, line_error, load_error, loaded_view,
    mark_before, mark_pos, newlines, row_ok, symbol_error, text_pos,
};
use vstd::math::min;
use vstd::prelude::*;

verus! {

/// Number of columns of the grid.
pub const WIDTH: usize = 7;

/// Number of rows of the grid.
pub const HEIGHT: usize = 6;

/// Number of cells of the grid.
pub const CELLS: usize = 42;

/// One of the two participants.
#[derive(Clone, Copy, Debug, PartialEq, Eq, Structural)]
pub enum Color {
    Red,
    Blue,
}

impl Color {
    pub open spec fn opposite(self) -> Color {
        match self {
            Color::Red => Color::Blue,
            Color::Blue => Color::Red,
        }
    }

    /// The other color.
    pub fn toggle(&self) -> (r: Color)
        ensures
            r == self.opposite(),
    {
        match self {
            Color::Red => Color::Blue,
            Color::Blue => Color::Red,
        }
    }
}

impl Default for Color {
    fn default() -> (r: Color)
        ensures
            r == Color::Red,
    {
        Color::Red
    }
}


/// Running per-color move counters.
#[derive(Clone, Copy, Debug, PartialEq, Eq, Structural)]
pub struct Turn {
    pub red: i32,
    pub blue: i32,
}

/// One placed chip: its color and the cell it landed in.
#[derive(Clone, Copy, Debug, PartialEq, Eq, Structural)]
pub struct Move {
    pub color: Color,
    pub row: usize,
    pub col: usize,
}

/// Where the game stands.
#[derive(Clone, Copy, Debug, PartialEq, Eq, Structural)]
pub enum BoardState {
    /// In progress; the color moves next.
    Turn(Color),
    Won(Color),
    /// The grid is full and nobody won.
    Stalemate,
}

/// The outcome of a successful drop.
#[derive(Clone, Copy, Debug, PartialEq, Eq, Structural)]
pub struct DropResult {
    pub last_move: Move,
    pub state: BoardState,
}

/// Why a drop was refused.
#[derive(Clone, Copy, Debug, PartialEq, Eq, Structural)]
pub enum PlayError {
    WrongColorChip,
    OutOfRange,
    ChipOverflow,
    GameOver(Color),
    Stalemate,
}

/// Why a text grid could not be loaded.
#[derive(Clone, Copy, Debug, PartialEq, Eq, Structural)]
pub enum LoadError {
    InvalidSize,
    InvalidText,
    InvalidMoves,
    NoLastMove,
    ExtraLastMove,
}

/// A Connect-4 grid of 7 columns and 6 rows, with its move counters,
/// last move and state.
#[derive(Debug)]
pub struct Board {
    /// Cell of column `c` and row `r` (row 0 at the bottom) at `c * HEIGHT + r`.
    chips: Vec<Option<Color>>,
    moves: Turn,
    last_move: Option<Move>,
    state: BoardState,
}

/// The mathematical model of a board.
pub struct BoardView {
    pub cells: Seq<Option<Color>>,
    pub red: int,
    pub blue: int,
    pub last_move: Option<Move>,
    pub state: BoardState,
}

/// Number of entries of `s` equal to `x`.
pub open spec fn count(s: Seq<Option<Color>>, x: Option<Color>) -> nat
    decreases s.len(),
{
    if s.len() == 0 {
        0
    } else {
        count(s.drop_last(), x) + if s.last() == x {
            1nat
        } else {
            0nat
        }
    }
}

/// Index of the cell of column `c` and row `r`.
pub open spec fn idx(c: int, r: int) -> int {
    c * 6 + r
}

pub open spec fn on_grid(c: int, r: int) -> bool {
    0 <= c < 7 && 0 <= r < 6
}

impl BoardView {
    pub open spec fn cell(self, c: int, r: int) -> Option<Color> {
        self.cells[idx(c, r)]
    }

    pub open spec fn moves(self) -> int {
        self.red + self.blue
    }

    /// Lowest empty row of column `c` at row `r` or above; 6 where there is none.
    pub open spec fn lowest_empty_from(self, c: int, r: int) -> int
        decreases 6 - r,
    {
        if r >= 6 {
            6
        } else if self.cell(c, r) is None {
            r
        } else {
            self.lowest_empty_from(c, r + 1)
        }
    }

    pub proof fn lemma_lowest_empty(self, c: int, r: int)
        requires
            0 <= r <= 6,
        ensures
            r <= self.lowest_empty_from(c, r) <= 6,
            self.lowest_empty_from(c, r) < 6 ==> self.cell(c, self.lowest_empty_from(c, r)) is None,
            forall|k: int| r <= k < self.lowest_empty_from(c, r) ==> #[trigger] self.cell(c, k) is Some,
        decreases 6 - r,
    {
        if r < 6 && self.cell(c, r) is Some {
            self.lemma_lowest_empty(c, r + 1);
        }
    }

    /// A chip dropped into column `c` lands in row `r` when every row below
    /// `r` is taken and row `r` is free.
    pub proof fn lemma_landing_at(self, c: int, r: int)
        requires
            0 <= r < 6,
            forall|k: int| 0 <= k < r ==> #[trigger] self.cell(c, k) is Some,
            self.cell(c, r) is None,
        ensures
            self.landing_row(c) == r,
    {
        self.lemma_lowest_empty_at(c, 0, r);
    }

    proof fn lemma_lowest_empty_at(self, c: int, j: int, r: int)
        requires
            0 <= j <= r < 6,
            forall|k: int| j <= k < r ==> #[trigger] self.cell(c, k) is Some,
            self.cell(c, r) is None,
        ensures
            self.lowest_empty_from(c, j) == r,
        decreases r - j,
    {
        if j < r {
            assert(self.cell(c, j) is Some);
            self.lemma_lowest_empty_at(c, j + 1, r);
        }
    }

    /// The row in which a chip dropped into column `c` comes to rest; 6 when
    /// the column is full.
    pub open spec fn landing_row(self, c: int) -> int {
        self.lowest_empty_from(c, 0)
    }

    /// Why `color` may not drop a chip into column `col`, if it may not.
    pub open spec fn drop_error(self, color: Color, col: int) -> Option<PlayError> {
        if !(0 <= col < 7) {
            Some(PlayError::OutOfRange)
        } else {
            match self.state {
                BoardState::Won(w) => Some(PlayError::GameOver(w)),
                BoardState::Stalemate => Some(PlayError::Stalemate),
                BoardState::Turn(t) => {
                    if color != t {
                        Some(PlayError::WrongColorChip)
                    } else if self.landing_row(col) >= 6 {
                        Some(PlayError::ChipOverflow)
                    } else {
                        None
                    }
                },
            }
        }
    }

    /// The board after a chip of `color` lands in column `col`.
    pub open spec fn placed(self, color: Color, col: int) -> BoardView {
        let m = Move { color, col: col as usize, row: self.landing_row(col) as usize };
        let cells = self.cells.update(idx(col, self.landing_row(col)), Some(color));
        let red = self.red + if color == Color::Red {
            1int
        } else {
            0int
        };
        let blue = self.blue + if color == Color::Blue {
            1int
        } else {
            0int
        };
        BoardView {
            cells,
            red,
            blue,
            last_move: Some(m),
            state: next_state(cells, m, red + blue),
        }
    }

    /// What dropping a chip of `color` into column `col` returns.
    pub open spec fn drop_outcome(self, color: Color, col: int) -> Result<DropResult, PlayError> {
        match self.drop_error(color, col) {
            Some(e) => Err(e),
            None => {
                let b = self.placed(color, col);
                Ok(DropResult { last_move: b.last_move->0, state: b.state })
            },
        }
    }

    /// The board after dropping a chip of `color` into column `col`: unchanged
    /// when the drop is refused.
    pub open spec fn after_drop(self, color: Color, col: int) -> BoardView {
        if self.drop_error(color, col) is None {
            self.placed(color, col)
        } else {
            self
        }
    }

    /// Text of the cells of columns 0 to `n - 1` of row `r`.
    pub open spec fn row_cells_text(self, r: int, n: int) -> Seq<char>
        decreases n,
    {
        if n <= 0 {
            Seq::empty()
        } else {
            self.row_cells_text(r, n - 1) + cell_text(self.cell(n - 1, r))
        }
    }

    pub open spec fn row_text(self, r: int) -> Seq<char> {
        "| "@ + self.row_cells_text(r, 7) + "|\n"@
    }

    /// Text of the top `n` rows, top first.
    pub open spec fn rows_text(self, n: int) -> Seq<char>
        decreases n,
    {
        if n <= 0 {
            Seq::empty()
        } else {
            self.rows_text(n - 1) + self.row_text(6 - n)
        }
    }

    pub open spec fn status_text(self) -> Seq<char> {
        match self.state {
            BoardState::Turn(c) => "Turn: "@ + color_name(c),
            BoardState::Won(c) => "Winner: "@ + color_name(c),
            BoardState::Stalemate => "Stalemate :/"@,
        }
    }

    /// The board as text: a title, the framed grid top row first, and a
    /// status line.
    pub open spec fn text(self) -> Seq<char> {
        "Connect4\n"@ + border_text() + self.rows_text(6) + border_text() + self.status_text()
    }

    pub open spec fn wf(self) -> bool {
        &&& self.cells.len() == 42
        &&& self.red == count(self.cells, Some(Color::Red))
        &&& self.blue == count(self.cells, Some(Color::Blue))
        &&& (self.state is Turn ==> self.moves() < 42)
        &&& (self.state !is Turn ==> self.last_move is Some)
        &&& (self.last_move matches Some(m) ==> on_grid(m.col as int, m.row as int) && self.cell(
            m.col as int,
            m.row as int,
        ) == Some(m.color))
    }
}

/// The state that follows move `m`, which leaves `cells` with `moves` chips
/// placed in all: a win, else a full grid, else the other color's turn.
pub open spec fn next_state(cells: Seq<Option<Color>>, m: Move, moves: int) -> BoardState {
    if wins(cells, m) {
        BoardState::Won(m.color)
    } else if moves >= 42 {
        BoardState::Stalemate
    } else {
        BoardState::Turn(m.color.opposite())
    }
}

pub proof fn lemma_count_update(s: Seq<Option<Color>>, i: int, v: Option<Color>, x: Option<Color>)
    requires
        0 <= i < s.len(),
    ensures
        count(s.update(i, v), x) == count(s, x) - (if s[i] == x {
            1int
        } else {
            0int
        }) + (if v == x {
            1int
        } else {
            0int
        }),
    decreases s.len(),
{
    let u = s.update(i, v);
    if i == s.len() - 1 {
        assert(u.drop_last() =~= s.drop_last());
    } else {
        assert(u.drop_last() =~= s.drop_last().update(i, v));
        lemma_count_update(s.drop_last(), i, v, x);
    }
}

proof fn lemma_count_none(s: Seq<Option<Color>>, x: Option<Color>)
    requires
        x is Some,
        forall|i: int| 0 <= i < s.len() ==> #[trigger] s[i] is None,
    ensures
        count(s, x) == 0,
    decreases s.len(),
{
    if s.len() > 0 {
        let d = s.drop_last();
        assert forall|i: int| 0 <= i < d.len() implies #[trigger] d[i] is None by {
            assert(s[i] is None);
        }
        lemma_count_none(d, x);
    }
}

/// The chips of both colors number at most the cells, and exactly the cells
/// when every cell holds one.
pub proof fn lemma_count_full(s: Seq<Option<Color>>)
    ensures
        count(s, Some(Color::Red)) + count(s, Some(Color::Blue)) <= s.len(),
        (count(s, Some(Color::Red)) + count(s, Some(Color::Blue)) == s.len()) <==> (forall|i: int|
            0 <= i < s.len() ==> #[trigger] s[i] is Some),
    decreases s.len(),
{
    if s.len() > 0 {
        let d = s.drop_last();
        lemma_count_full(d);
        assert(count(s, Some(Color::Red)) == count(d, Some(Color::Red)) + if s.last() == Some(
            Color::Red,
        ) {
            1nat
        } else {
            0nat
        });
        assert(count(s, Some(Color::Blue)) == count(d, Some(Color::Blue)) + if s.last() == Some(
            Color::Blue,
        ) {
            1nat
        } else {
            0nat
        });
        match s.last() {
            Some(Color::Red) => {},
            Some(Color::Blue) => {},
            None => {},
        }
        if forall|i: int| 0 <= i < s.len() ==> #[trigger] s[i] is Some {
            assert forall|i: int| 0 <= i < d.len() implies #[trigger] d[i] is Some by {
                assert(s[i] is Some);
            }
            assert(s[s.len() - 1] is Some);
        }
        if count(s, Some(Color::Red)) + count(s, Some(Color::Blue)) == s.len() {
            assert forall|i: int| 0 <= i < s.len() implies #[trigger] s[i] is Some by {
                if i < d.len() {
                    assert(d[i] is Some);
                }
            }
        }
    }
}

/// Text of one cell.
pub open spec fn cell_text(x: Option<Color>) -> Seq<char> {
    match x {
        None => "- "@,
        Some(Color::Red) => "r "@,
        Some(Color::Blue) => "b "@,
    }
}

pub open spec fn color_name(c: Color) -> Seq<char> {
    match c {
        Color::Red => "Red"@,
        Color::Blue => "Blue"@,
    }
}

/// The frame line above and below the grid.
pub open spec fn border_text() -> Seq<char> {
    "+━━━━━━━━━━━━━━━+\n"@
}

/// A direction of a line through the grid.
#[derive(Clone, Copy, Debug, PartialEq, Eq, Structural)]
pub enum Dir {
    /// Along a column, bottom to top.
    Up,
    /// Along a row, left to right.
    Right,
    /// The diagonal that rises to the right.
    UpRight,
    /// The diagonal that falls to the right.
    DownRight,
}

impl Dir {
    /// Column of the `k`-th cell of a line in this direction from column `c0`.
    pub open spec fn col_at(self, c0: int, k: int) -> int {
        match self {
            Dir::Up => c0,
            _ => c0 + k,
        }
    }

    /// Row of the `k`-th cell of a line in this direction from row `r0`.
    pub open spec fn row_at(self, r0: int, k: int) -> int {
        match self {
            Dir::Right => r0,
            Dir::DownRight => r0 - k,
            _ => r0 + k,
        }
    }
}

/// The `n` cells that start at column `c0`, row `r0` and follow direction `d`.
pub open spec fn line(cells: Seq<Option<Color>>, c0: int, r0: int, d: Dir, n: int) -> Seq<
    Option<Color>,
> {
    Seq::new(n as nat, |k: int| cells[idx(d.col_at(c0, k), d.row_at(r0, k))])
}

/// The four entries of `s` from position `i` on equal `Some(t)`.
pub open spec fn four_at(s: Seq<Option<Color>>, i: int, t: Color) -> bool {
    &&& 0 <= i
    &&& i + 4 <= s.len()
    &&& s[i] == Some(t)
    &&& s[i + 1] == Some(t)
    &&& s[i + 2] == Some(t)
    &&& s[i + 3] == Some(t)
}

/// `s` holds four consecutive entries equal to `Some(t)`.
pub open spec fn has_run4(s: Seq<Option<Color>>, t: Color) -> bool {
    exists|i: int| #[trigger] four_at(s, i, t)
}

/// Length of the run of `Some(t)` that ends `s`.
pub open spec fn run_end(s: Seq<Option<Color>>, t: Color) -> nat
    decreases s.len(),
{
    if s.len() == 0 {
        0
    } else if s.last() == Some(t) {
        run_end(s.drop_last(), t) + 1
    } else {
        0
    }
}

/// Column where the window of direction `d` through column `c`, row `r` starts.
pub open spec fn window_col(c: int, r: int, d: Dir) -> int {
    match d {
        Dir::Up => c,
        Dir::Right => c - min(4, c),
        Dir::UpRight => c - min(3, min(c, r)),
        Dir::DownRight => c - min(3, min(c, 5 - r)),
    }
}

/// Row where the window of direction `d` through column `c`, row `r` starts.
pub open spec fn window_row(c: int, r: int, d: Dir) -> int {
    match d {
        Dir::Up => r - min(4, r),
        Dir::Right => r,
        Dir::UpRight => r - min(3, min(c, r)),
        Dir::DownRight => r + min(3, min(c, 5 - r)),
    }
}

/// Number of cells of the window of direction `d` through column `c`, row `r`.
pub open spec fn window_len(c: int, r: int, d: Dir) -> int {
    match d {
        Dir::Up => min(4, r) + min(4, 6 - r),
        Dir::Right => min(4, c) + min(4, 7 - c),
        Dir::UpRight => min(3, min(c, r)) + min(3, min(5 - r, 6 - c)) + 1,
        Dir::DownRight => min(3, min(c, 5 - r)) + min(3, min(6 - c, r)) + 1,
    }
}

/// The stretch of the line in direction `d` through column `c`, row `r` that
/// win detection scans: up to four cells back along a column or a row (three
/// forward), and up to three cells either way along a diagonal, cut at the
/// grid's edges.
pub open spec fn window(cells: Seq<Option<Color>>, c: int, r: int, d: Dir) -> Seq<Option<Color>> {
    line(cells, window_col(c, r, d), window_row(c, r, d), d, window_len(c, r, d))
}

/// The chip of move `m` completes four of its color in one of the scanned windows.
pub open spec fn wins(cells: Seq<Option<Color>>, m: Move) -> bool {
    let c = m.col as int;
    let r = m.row as int;
    ||| has_run4(window(cells, c, r, Dir::Up), m.color)
    ||| has_run4(window(cells, c, r, Dir::Right), m.color)
    ||| has_run4(window(cells, c, r, Dir::UpRight), m.color)
    ||| has_run4(window(cells, c, r, Dir::DownRight), m.color)
}

proof fn lemma_run_end_len(s: Seq<Option<Color>>, t: Color)
    ensures
        run_end(s, t) <= s.len(),
    decreases s.len(),
{
    if s.len() > 0 {
        lemma_run_end_len(s.drop_last(), t);
    }
}

proof fn lemma_run_end_tail(s: Seq<Option<Color>>, t: Color, j: int)
    requires
        0 <= j < run_end(s, t),
    ensures
        j < s.len(),
        s[s.len() - 1 - j] == Some(t),
    decreases s.len(),
{
    lemma_run_end_len(s, t);
    assert(s.len() > 0);
    assert(s.last() == Some(t));
    if j > 0 {
        let d = s.drop_last();
        assert(run_end(s, t) == run_end(d, t) + 1);
        lemma_run_end_tail(d, t, j - 1);
        assert(d[d.len() - 1 - (j - 1)] == s[s.len() - 1 - j]);
    }
}

proof fn lemma_tail_run_end(s: Seq<Option<Color>>, t: Color, j: int)
    requires
        0 <= j <= s.len(),
        forall|k: int| s.len() - j <= k < s.len() ==> s[k] == Some(t),
    ensures
        run_end(s, t) >= j,
    decreases s.len(),
{
    if j > 0 {
        let d = s.drop_last();
        assert(s.last() == Some(t));
        assert forall|k: int| d.len() - (j - 1) <= k < d.len() implies d[k] == Some(t) by {
            assert(d[k] == s[k]);
        }
        lemma_tail_run_end(d, t, j - 1);
    }
}

/// A run of four at the end of `s` is four in a row.
proof fn lemma_run_end_four(s: Seq<Option<Color>>, t: Color)
    requires
        run_end(s, t) >= 4,
    ensures
        has_run4(s, t),
{
    lemma_run_end_tail(s, t, 0);
    lemma_run_end_tail(s, t, 1);
    lemma_run_end_tail(s, t, 2);
    lemma_run_end_tail(s, t, 3);
    assert(four_at(s, s.len() - 4, t));
}

/// Scanning one more entry: the run and the absence of four in a row carry over.
proof fn lemma_scan_step(s: Seq<Option<Color>>, x: Option<Color>, t: Color)
    requires
        !has_run4(s, t),
        run_end(s, t) < 4,
    ensures
        run_end(s.push(x), t) == if x == Some(t) {
            run_end(s, t) + 1
        } else {
            0
        },
        run_end(s.push(x), t) < 4 ==> !has_run4(s.push(x), t),
{
    let p = s.push(x);
    assert(p.drop_last() =~= s);
    assert(p.last() == x);
    if run_end(p, t) < 4 && has_run4(p, t) {
        let i = choose|i: int| #[trigger] four_at(p, i, t);
        if i + 4 <= s.len() {
            assert(s[i] == p[i] && s[i + 1] == p[i + 1] && s[i + 2] == p[i + 2] && s[i + 3] == p[i
                + 3]);
            assert(four_at(s, i, t));
        } else {
            lemma_tail_run_end(p, t, 4);
        }
    }
}

/// Advances `current_length`, the length of the current run of `turn`, past
/// `chip`; tells whether the run has reached four.
fn count_length(current_length: &mut i32, turn: Color, chip: Option<Color>) -> (r: bool)
    requires
        *old(current_length) < i32::MAX,
    ensures
        *final(current_length) == if chip == Some(turn) {
            *old(current_length) + 1
        } else {
            0
        },
        r == (*final(current_length) >= 4),
{
    if let Some(color) = chip {
        if color == turn {
            *current_length += 1;
            return *current_length >= 4;
        }
    }
    *current_length = 0;
    false
}

/// Name of a color, as the status line shows it.
fn color_str(c: Color) -> (r: &'static str)
    ensures
        r@ == color_name(c),
{
    match c {
        Color::Red => "Red",
        Color::Blue => "Blue",
    }
}

/// Position in the cell vector of column `c`, row `r`.
fn cell_index(c: usize, r: usize) -> (i: usize)
    requires
        on_grid(c as int, r as int),
    ensures
        i == idx(c as int, r as int),
        i < 42,
{
    c * HEIGHT + r
}

fn min_usize(a: usize, b: usize) -> (r: usize)
    ensures
        r == min(a as int, b as int),
{
    if a < b {
        a
    } else {
        b
    }
}

impl View for Board {
    type V = BoardView;

    closed spec fn view(&self) -> BoardView {
        BoardView {
            cells: self.chips@,
            red: self.moves.red as int,
            blue: self.moves.blue as int,
            last_move: self.last_move,
            state: self.state,
        }
    }
}

impl Board {
    /// An empty board; Red moves first.
    pub fn new() -> (r: Board)
        ensures
            r@.wf(),
            r@.cells == Seq::new(42, |i: int| None::<Color>),
            r@.red == 0,
            r@.blue == 0,
            r@.last_move is None,
            r@.state == BoardState::Turn(Color::Red),
    {
        let mut chips: Vec<Option<Color>> = Vec::new();
        let mut i: usize = 0;
        while i < CELLS
            invariant
                i <= 42,
                chips@ == Seq::new(i as nat, |k: int| None::<Color>),
            decreases 42 - i,
        {
            chips.push(None);
            i += 1;
            assert(chips@ =~= Seq::new(i as nat, |k: int| None::<Color>));
        }
        let r = Board {
            chips,
            state: BoardState::Turn(Color::Red),
            last_move: None,
            moves: Turn { red: 0, blue: 0 },
        };
        proof {
            lemma_count_none(r.chips@, Some(Color::Red));
            lemma_count_none(r.chips@, Some(Color::Blue));
        }
        r
    }

    /// Builds a board from a text grid: 6 lines of 7 symbols, the first line
    /// the top row; `r` and `b` are chips, `R` or `B` the one chip of the last
    /// move, `.` an empty cell. The state is derived from the marked move as a
    /// live drop derives it.
    pub fn load(layout: &str) -> (r: Result<Board, LoadError>)
        ensures
            match r {
                Ok(b) => load_error(layout@) is None && b@ == loaded_view(layout@) && b@.wf(),
                Err(e) => load_error(layout@) == Some(e),
            },
    {
        let t = chars_of(layout);
        let n = t.len();
        let mut breaks: usize = 0;
        let mut p: usize = 0;
        while p < n
            invariant
                t@ == layout@,
                n == t@.len(),
                p <= n,
                breaks <= p,
                breaks == newlines(t@.take(p as int)),
            decreases n - p,
        {
            assert(t@.take(p + 1).drop_last() =~= t@.take(p as int));
            if t[p] == '\n' {
                breaks += 1;
            }
            p += 1;
        }
        assert(t@.take(n as int) =~= t@);
        if breaks != HEIGHT - 1 {
            return Err(LoadError::InvalidSize);
        }
        let ghost tt = t@;
        let mut board = Board::new();
        let mut r_moves: i32 = 0;
        let mut b_moves: i32 = 0;
        let mut last_move: Option<Move> = None;
        let ghost mut mp: int = 0;
        let mut r_inv: usize = 0;
        while r_inv < HEIGHT
            invariant
                tt == t@,
                tt == layout@,
                n == tt.len(),
                newlines(tt) == 5,
                r_inv <= 6,
                grid_error(tt, 0) == grid_error(tt, r_inv as int),
                r_inv > 0 ==> row_ok(tt, r_inv - 1),
                board.chips@.len() == 42,
                forall|c: int, r: int|
                    on_grid(c, r) ==> #[trigger] board.chips@[idx(c, r)] == if 5 - r < r_inv {
                        chip_of(tt[text_pos(c, r)])
                    } else {
                        None
                    },
                r_moves == count(board.chips@, Some(Color::Red)),
                b_moves == count(board.chips@, Some(Color::Blue)),
                r_inv == 0 ==> last_move is None,
                r_inv > 0 ==> (last_move is Some <==> mark_before(tt, 8 * r_inv - 1)),
                last_move is Some ==> {
                    &&& 0 <= mp < 8 * r_inv - 1
                    &&& mp % 8 < 7
                    &&& is_mark(tt[mp])
                    &&& last_move == Some(
                        Move {
                            color: chip_of(tt[mp])->Some_0,
                            col: (mp % 8) as usize,
                            row: (5 - mp / 8) as usize,
                        },
                    )
                    &&& forall|q: int|
                        0 <= q < 8 * r_inv - 1 && #[trigger] is_mark(tt[q]) ==> q == mp
                },
            decreases 6 - r_inv,
        {
            let start = r_inv * (WIDTH + 1);
            let mut w: usize = 0;
            while w < WIDTH && start + w < n && t[start + w] != '\n'
                invariant
                    tt == t@,
                    n == tt.len(),
                    start == 8 * r_inv,
                    r_inv < 6,
                    w <= 7,
                    w > 0 ==> start + w <= n,
                    forall|q: int| start <= q < start + w ==> #[trigger] tt[q] != '\n',
                decreases 7 - w,
            {
                w += 1;
            }
            if w < WIDTH || (start + WIDTH < n && t[start + WIDTH] != '\n') {
                return Err(LoadError::InvalidSize);
            }
            assert(row_ok(tt, r_inv as int));
            proof {
                if r_inv > 0 {
                    assert(tt[start - 1] == '\n');
                    if mark_before(tt, start as int) {
                        let q = choose|q: int| 0 <= q < start && #[trigger] is_mark(tt[q]);
                        assert(q < start - 1);
                    }
                }
            }
            let row = (HEIGHT - 1) - r_inv;
            let mut col: usize = 0;
            while col < WIDTH
                invariant
                    tt == t@,
                    tt == layout@,
                    n == tt.len(),
                    newlines(tt) == 5,
                    start == 8 * r_inv,
                    row == 5 - r_inv,
                    r_inv < 6,
                    col <= 7,
                    row_ok(tt, r_inv as int),
                    grid_error(tt, 0) == grid_error(tt, r_inv as int),
                    line_error(tt, r_inv as int, 0) == line_error(tt, r_inv as int, col as int),
                    board.chips@.len() == 42,
                    forall|c: int, r: int|
                        on_grid(c, r) ==> #[trigger] board.chips@[idx(c, r)] == if 5 - r < r_inv
                            || (5 - r == r_inv && c < col) {
                            chip_of(tt[text_pos(c, r)])
                        } else {
                            None
                        },
                    r_moves == count(board.chips@, Some(Color::Red)),
                    b_moves == count(board.chips@, Some(Color::Blue)),
                    last_move is Some <==> mark_before(tt, start + col),
                    last_move is Some ==> {
                        &&& 0 <= mp < start + col
                        &&& mp % 8 < 7
                        &&& is_mark(tt[mp])
                        &&& last_move == Some(
                            Move {
                                color: chip_of(tt[mp])->Some_0,
                                col: (mp % 8) as usize,
                                row: (5 - mp / 8) as usize,
                            },
                        )
                        &&& forall|q: int|
                            0 <= q < start + col && #[trigger] is_mark(tt[q]) ==> q == mp
                    },
                decreases 7 - col,
            {
                let ghost pos = start + col;
                let ch = t[start + col];
                let chip: Option<Color>;
                if ch == 'r' {
                    chip = Some(Color::Red);
                } else if ch == 'b' {
                    chip = Some(Color::Blue);
                } else if ch == 'R' || ch == 'B' {
                    if last_move.is_some() {
                        assert(symbol_error(tt, pos) == Some(LoadError::ExtraLastMove));
                        assert(line_error(tt, r_inv as int, col as int) == Some(
                            LoadError::ExtraLastMove,
                        ));
                        assert(grid_error(tt, r_inv as int) == Some(LoadError::ExtraLastMove));
                        return Err(LoadError::ExtraLastMove);
                    }
                    let color = if ch == 'R' {
                        Color::Red
                    } else {
                        Color::Blue
                    };
                    proof {
                        mp = pos;
                        assert(mp % 8 == col && mp / 8 == r_inv);
                    }
                    last_move = Some(Move { color, row, col });
                    chip = Some(color);
                } else if ch == '.' {
                    chip = None;
                } else {
                    assert(symbol_error(tt, pos) == Some(LoadError::InvalidText));
                    assert(line_error(tt, r_inv as int, col as int) == Some(LoadError::InvalidText));
                    assert(grid_error(tt, r_inv as int) == Some(LoadError::InvalidText));
                    return Err(LoadError::InvalidText);
                }
                assert(symbol_error(tt, pos) is None);
                proof {
                    assert(board.chips@[idx(col as int, row as int)] is None);
                    lemma_count_update(board.chips@, idx(col as int, row as int), chip, Some(Color::Red));
                    lemma_count_update(board.chips@, idx(col as int, row as int), chip, Some(Color::Blue));
                    lemma_count_full(board.chips@);
                    if is_mark(tt[pos]) {
                        assert(mark_before(tt, pos + 1));
                    }
                    if mark_before(tt, pos + 1) && !is_mark(tt[pos]) {
                        let q = choose|q: int| 0 <= q < pos + 1 && #[trigger] is_mark(tt[q]);
                        assert(mark_before(tt, pos));
                    }
                }
                board.chips.set(cell_index(col, row), chip);
                match chip {
                    Some(Color::Red) => r_moves += 1,
                    Some(Color::Blue) => b_moves += 1,
                    None => {},
                }
                col += 1;
            }
            proof {
                if mark_before(tt, 8 * (r_inv + 1) - 1) {
                    let q = choose|q: int| 0 <= q < 8 * (r_inv + 1) - 1 && #[trigger] is_mark(tt[q]);
                    assert(mark_before(tt, start + 7));
                }
            }
            r_inv += 1;
        }
        assert forall|i: int| 0 <= i < 42 implies board.chips@[i] == grid_cells(tt)[i] by {
            assert(idx(i / 6, i % 6) == i);
            assert(on_grid(i / 6, i % 6));
        }
        assert(board.chips@ =~= grid_cells(tt));
        proof {
            lemma_count_full(board.chips@);
        }
        if r_moves > b_moves + 1 || b_moves > r_moves + 1 {
            return Err(LoadError::InvalidMoves);
        }
        let last_move = match last_move {
            Some(l) => l,
            None => {
                return Err(LoadError::NoLastMove);
            },
        };
        assert(mark_pos(tt) == mp);
        board.moves = Turn { red: r_moves, blue: b_moves };
        board.last_move = Some(last_move);
        board.state = BoardState::Turn(last_move.color);
        let win = board.compute_win(last_move);
        board.state = board.compute_state(win);
        assert(board@ == loaded_view(tt));
        Ok(board)
    }

    /// The board as text, as sent to the players.
    pub fn render(&self) -> (r: String)
        requires
            self@.cells.len() == 42,
        ensures
            r@ == self@.text(),
    {
        let mut output = String::new();
        output.append("Connect4\n");
        output.append("+━━━━━━━━━━━━━━━+\n");
        let ghost head = output@;
        let mut done: usize = 0;
        while done < HEIGHT
            invariant
                self@.cells.len() == 42,
                done <= 6,
                output@ == head + self@.rows_text(done as int),
            decreases 6 - done,
        {
            let row = (HEIGHT - 1) - done;
            let ghost before = output@;
            output.append("| ");
            let mut col: usize = 0;
            while col < WIDTH
                invariant
                    self@.cells.len() == 42,
                    row < 6,
                    col <= 7,
                    output@ == before + "| "@ + self@.row_cells_text(row as int, col as int),
                decreases 7 - col,
            {
                match self.chips[cell_index(col, row)] {
                    None => output.append("- "),
                    Some(chip) => match chip {
                        Color::Red => output.append("r "),
                        Color::Blue => output.append("b "),
                    },
                }
                col += 1;
                assert(output@ =~= before + "| "@ + self@.row_cells_text(row as int, col as int));
            }
            output.append("|\n");
            done += 1;
            assert(output@ =~= head + self@.rows_text(done as int));
        }
        output.append("+━━━━━━━━━━━━━━━+\n");
        match self.state {
            BoardState::Turn(current) => {
                output.append("Turn: ");
                output.append(color_str(current));
            },
            BoardState::Won(winner) => {
                output.append("Winner: ");
                output.append(color_str(winner));
            },
            BoardState::Stalemate => {
                output.append("Stalemate :/");
            },
        }
        assert(output@ =~= self@.text());
        output
    }

    /// The last chip placed, if any.
    pub fn last_move(&self) -> (r: Option<Move>)
        ensures
            r == self@.last_move,
    {
        self.last_move
    }

    /// The board's current state.
    pub fn state(&self) -> (r: BoardState)
        ensures
            r == self@.state,
    {
        self.state
    }

    /// Drops a chip of color `chip` into column `col`: it lands in the lowest
    /// empty row, the color's counter goes up, and the state moves on to a
    /// win, a stalemate or the other color's turn. A refused drop changes
    /// nothing.
    pub fn drop_chip(&mut self, chip: Color, col: usize) -> (r: Result<DropResult, PlayError>)
        requires
            old(self)@.wf(),
        ensures
            final(self)@.wf(),
            r == old(self)@.drop_outcome(chip, col as int),
            final(self)@ == old(self)@.after_drop(chip, col as int),
    {
        if col >= WIDTH {
            return Err(PlayError::OutOfRange);
        }
        let current_turn = match self.state {
            BoardState::Turn(c) => c,
            BoardState::Won(winner) => {
                return Err(PlayError::GameOver(winner));
            },
            BoardState::Stalemate => {
                return Err(PlayError::Stalemate);
            },
        };
        if chip != current_turn {
            return Err(PlayError::WrongColorChip);
        }
        let ghost pre = self@;
        let mut row: usize = 0;
        while row < HEIGHT
            invariant
                self@ == pre,
                pre.wf(),
                col < 7,
                row <= 6,
                pre.landing_row(col as int) == pre.lowest_empty_from(col as int, row as int),
            ensures
                row == pre.landing_row(col as int),
            decreases 6 - row,
        {
            match self.chips[cell_index(col, row)] {
                None => {
                    break;
                },
                Some(_) => {},
            }
            row += 1;
        }
        if row == HEIGHT {
            return Err(PlayError::ChipOverflow);
        }
        let current_move = Move { color: current_turn, col: col, row: row };
        proof {
            pre.lemma_lowest_empty(col as int, 0);
            lemma_count_full(pre.cells);
            lemma_count_update(pre.cells, idx(col as int, row as int), Some(chip), Some(Color::Red));
            lemma_count_update(pre.cells, idx(col as int, row as int), Some(chip), Some(Color::Blue));
        }
        self.chips.set(cell_index(col, row), Some(current_turn));
        match current_turn {
            Color::Red => self.moves.red += 1,
            Color::Blue => self.moves.blue += 1,
        }
        let win = self.compute_win(current_move);
        self.state = self.compute_state(win);
        self.last_move = Some(current_move);
        proof {
            lemma_count_full(self@.cells);
            assert(self@ == pre.placed(chip, col as int));
        }
        Ok(DropResult { last_move: current_move, state: self.state })
    }

    /// The state after a move of the color whose turn it is: `win` if there
    /// is one, else a stalemate when the grid is full, else the other color's
    /// turn.
    fn compute_state(&self, win: Option<Color>) -> (r: BoardState)
        requires
            win is Some || self@.moves() >= 42 || self.state is Turn,
        ensures
            r == match win {
                Some(w) => BoardState::Won(w),
                None => if self@.moves() >= 42 {
                    BoardState::Stalemate
                } else {
                    BoardState::Turn(self.state->Turn_0.opposite())
                },
            },
    {
        let board_full = self.moves.red as i64 + self.moves.blue as i64 >= CELLS as i64;
        match win {
            None => {
                if board_full {
                    return BoardState::Stalemate;
                }
                match self.state {
                    BoardState::Turn(color) => BoardState::Turn(color.toggle()),
                    other => other,
                }
            },
            Some(winner) => BoardState::Won(winner),
        }
    }

    /// Tells whether the `n` cells from column `c0`, row `r0` in direction `d`
    /// hold four consecutive chips of color `turn`.
    fn scan_line(&self, turn: Color, c0: usize, r0: usize, d: Dir, n: usize) -> (r: bool)
        requires
            self.chips@.len() == 42,
            n <= 8,
            forall|k: int|
                0 <= k < n ==> on_grid(
                    #[trigger] d.col_at(c0 as int, k),
                    d.row_at(r0 as int, k),
                ),
        ensures
            r == has_run4(line(self.chips@, c0 as int, r0 as int, d, n as int), turn),
    {
        let ghost l = line(self.chips@, c0 as int, r0 as int, d, n as int);
        let mut current_length: i32 = 0;
        let mut k: usize = 0;
        while k < n
            invariant
                self.chips@.len() == 42,
                l == line(self.chips@, c0 as int, r0 as int, d, n as int),
                forall|k: int|
                    0 <= k < n ==> on_grid(
                        #[trigger] d.col_at(c0 as int, k),
                        d.row_at(r0 as int, k),
                    ),
                k <= n,
                0 <= current_length < 4,
                current_length == run_end(l.take(k as int), turn),
                !has_run4(l.take(k as int), turn),
            decreases n - k,
        {
            assert(on_grid(d.col_at(c0 as int, k as int), d.row_at(r0 as int, k as int)));
            let (c, r) = match d {
                Dir::Up => (c0, r0 + k),
                Dir::Right => (c0 + k, r0),
                Dir::UpRight => (c0 + k, r0 + k),
                Dir::DownRight => (c0 + k, r0 - k),
            };
            assert(c == d.col_at(c0 as int, k as int) && r == d.row_at(r0 as int, k as int));
            let chip = self.chips[cell_index(c, r)];
            proof {
                assert(chip == l[k as int]);
                assert(l.take(k + 1) =~= l.take(k as int).push(chip));
                lemma_scan_step(l.take(k as int), chip, turn);
            }
            if count_length(&mut current_length, turn, chip) {
                proof {
                    let p = l.take(k + 1);
                    lemma_run_end_four(p, turn);
                    let i = choose|i: int| #[trigger] four_at(p, i, turn);
                    assert(l[i] == p[i] && l[i + 1] == p[i + 1] && l[i + 2] == p[i + 2] && l[i + 3]
                        == p[i + 3]);
                    assert(four_at(l, i, turn));
                }
                return true;
            }
            k += 1;
        }
        assert(l.take(n as int) =~= l);
        false
    }

    /// Tells whether the chip of `last_move` completes four of its color in
    /// one of the four lines through it.
    fn compute_win(&self, last_move: Move) -> (r: Option<Color>)
        requires
            self.chips@.len() == 42,
            on_grid(last_move.col as int, last_move.row as int),
        ensures
            r == if wins(self.chips@, last_move) {
                Some(last_move.color)
            } else {
                None
            },
    {
        let turn = last_move.color;
        let col = last_move.col;
        let row = last_move.row;

        // along the column
        let back = min_usize(4, row);
        let fwd = min_usize(4, HEIGHT - row);
        if self.scan_line(turn, col, row - back, Dir::Up, back + fwd) {
            return Some(turn);
        }
        // along the row

        let back = min_usize(4, col);
        let fwd = min_usize(4, WIDTH - col);
        if self.scan_line(turn, col - back, row, Dir::Right, back + fwd) {
            return Some(turn);
        }
        // rising diagonal

        let back = min_usize(3, min_usize(col, row));
        let fwd = min_usize(3, min_usize((HEIGHT - 1) - row, (WIDTH - 1) - col));
        if self.scan_line(turn, col - back, row - back, Dir::UpRight, back + fwd + 1) {
            return Some(turn);
        }
        // falling diagonal

        let back = min_usize(3, min_usize(col, (HEIGHT - 1) - row));
        let fwd = min_usize(3, min_usize((WIDTH - 1) - col, row));
        if self.scan_line(turn, col - back, row + back, Dir::DownRight, back + fwd + 1) {
            return Some(turn);
        }
        None
    }
}

} // verus!
