use crate::board::{
    count, four_at, has_run4, idx, lemma_count_full, lemma_count_update, on_grid, wins, window,
    window_col, window_len, window_row, BoardState, BoardView, Color, Dir, DropResult, PlayError,
};
use crate::text::{
    chip_of, grid_cells, is_symbol, line_error, newlines, symbol_error, grid_error, is_mark, load_error, loaded_view, mark_before, mark_pos, marked_move,
    row_ok, text_pos,
};
use crate::game::{Action, Event, GameError, GameState, GameView};
use crate::message::{is_board_message, Message};
use vstd::prelude::*;

verus! {

/// Cell of column `c`, row `r` lies on the grid and holds a chip of `t`.
pub open spec fn holds(cells: Seq<Option<Color>>, c: int, r: int, t: Color) -> bool {
    on_grid(c, r) && cells[idx(c, r)] == Some(t)
}

/// Four chips of `t` from column `c0`, row `r0` on in direction `d`.
pub open spec fn four_from(cells: Seq<Option<Color>>, c0: int, r0: int, d: Dir, t: Color) -> bool {
    &&& holds(cells, d.col_at(c0, 0), d.row_at(r0, 0), t)
    &&& holds(cells, d.col_at(c0, 1), d.row_at(r0, 1), t)
    &&& holds(cells, d.col_at(c0, 2), d.row_at(r0, 2), t)
    &&& holds(cells, d.col_at(c0, 3), d.row_at(r0, 3), t)
}

/// Four chips of `t` in direction `d`, the `s`-th of them at column `c`, row `r`.
pub open spec fn four_back(cells: Seq<Option<Color>>, c: int, r: int, s: int, d: Dir, t: Color) -> bool {
    four_from(cells, d.col_at(c, -s), d.row_at(r, -s), d, t)
}

/// Four chips of `t` in direction `d`, one of them at column `c`, row `r`.
pub open spec fn four_through(cells: Seq<Option<Color>>, c: int, r: int, d: Dir, t: Color) -> bool {
    exists|s: int| 0 <= s < 4 && #[trigger] four_back(cells, c, r, s, d, t)
}

proof fn lemma_window_on_grid(c: int, r: int, d: Dir)
    requires
        on_grid(c, r),
    ensures
        forall|k: int|
            0 <= k < window_len(c, r, d) ==> on_grid(
                #[trigger] d.col_at(window_col(c, r, d), k),
                d.row_at(window_row(c, r, d), k),
            ),
{
}

/// The `k`-th cell of a line is at column `c`, row `r` exactly when the line
/// starts `k` cells back from there.
proof fn lemma_back(c: int, r: int, d: Dir, c0: int, r0: int, k: int)
    requires
        d.col_at(c0, k) == c,
        d.row_at(r0, k) == r,
    ensures
        d.col_at(c, -k) == c0,
        d.row_at(r, -k) == r0,
{
}

/// Position in the window through column `c`, row `r` where four through
/// that cell, starting `s` cells back, start.
proof fn lemma_run_index(c: int, r: int, d: Dir, s: int) -> (i: int)
    requires
        on_grid(c, r),
        0 <= s < 4,
        on_grid(d.col_at(c, -s), d.row_at(r, -s)),
        on_grid(d.col_at(d.col_at(c, -s), 3), d.row_at(d.row_at(r, -s), 3)),
    ensures
        0 <= i,
        i + 4 <= window_len(c, r, d),
        forall|k: int|
            0 <= k < 4 ==> d.col_at(window_col(c, r, d), i + k) == #[trigger] d.col_at(
                d.col_at(c, -s),
                k,
            ) && d.row_at(window_row(c, r, d), i + k) == d.row_at(d.row_at(r, -s), k),
{
    match d {
        Dir::Up => d.row_at(r, -s) - window_row(c, r, d),
        _ => d.col_at(c, -s) - window_col(c, r, d),
    }
}

/// Four in a line through a cell lie inside the window that win detection
/// scans there.
proof fn lemma_through_in_window(cells: Seq<Option<Color>>, c: int, r: int, d: Dir, t: Color)
    requires
        on_grid(c, r),
        four_through(cells, c, r, d, t),
    ensures
        has_run4(window(cells, c, r, d), t),
{
    let s = choose|s: int| 0 <= s < 4 && #[trigger] four_back(cells, c, r, s, d, t);
    let c0 = d.col_at(c, -s);
    let r0 = d.row_at(r, -s);
    let i = lemma_run_index(c, r, d, s);
    let w = window(cells, c, r, d);
    assert(d.col_at(c0, 0) == d.col_at(window_col(c, r, d), i));
    assert(d.col_at(c0, 1) == d.col_at(window_col(c, r, d), i + 1));
    assert(d.col_at(c0, 2) == d.col_at(window_col(c, r, d), i + 2));
    assert(d.col_at(c0, 3) == d.col_at(window_col(c, r, d), i + 3));
    assert(w[i] == Some(t));
    assert(w[i + 1] == Some(t));
    assert(w[i + 2] == Some(t));
    assert(w[i + 3] == Some(t));
    assert(four_at(w, i, t));
}

/// Four cells of a window that miss its cell of column `c`, row `r` end
/// right before it: the window reaches no further than three cells past it.
proof fn lemma_four_before(c: int, r: int, d: Dir, i: int)
    requires
        on_grid(c, r),
        0 <= i,
        i + 4 <= window_len(c, r, d),
        !(d.col_at(window_col(c, r, d), i) == c && d.row_at(window_row(c, r, d), i) == r),
        !(d.col_at(window_col(c, r, d), i + 1) == c && d.row_at(window_row(c, r, d), i + 1) == r),
        !(d.col_at(window_col(c, r, d), i + 2) == c && d.row_at(window_row(c, r, d), i + 2) == r),
        !(d.col_at(window_col(c, r, d), i + 3) == c && d.row_at(window_row(c, r, d), i + 3) == r),
    ensures
        d.col_at(window_col(c, r, d), i + 4) == c,
        d.row_at(window_row(c, r, d), i + 4) == r,
{
    let wc = window_col(c, r, d);
    let wr = window_row(c, r, d);
    // index of the cell of column `c`, row `r` in the window
    let q = match d {
        Dir::Up => r - wr,
        _ => c - wc,
    };
    assert(d.col_at(wc, q) == c && d.row_at(wr, q) == r);
    assert(i + 4 == q);
}

/// Four chips of `t` followed by a fifth at column `c`, row `r` make four
/// that end there.
proof fn lemma_fifth(a: Seq<Option<Color>>, c: int, r: int, d: Dir, t: Color, c0: int, r0: int)
    requires
        four_from(a, c0, r0, d, t),
        d.col_at(c0, 4) == c,
        d.row_at(r0, 4) == r,
        holds(a, c, r, t),
    ensures
        four_back(a, c, r, 3, d, t),
{
    assert(d.col_at(c, -3) == d.col_at(c0, 1) && d.row_at(r, -3) == d.row_at(r0, 1));
    assert(d.col_at(d.col_at(c, -3), 3) == c && d.row_at(d.row_at(r, -3), 3) == r);
}

/// Four in a row of a window are four on the grid.
proof fn lemma_window_four(a: Seq<Option<Color>>, c: int, r: int, d: Dir, t: Color, i: int)
    requires
        on_grid(c, r),
        four_at(window(a, c, r, d), i, t),
    ensures
        four_from(a, d.col_at(window_col(c, r, d), i), d.row_at(window_row(c, r, d), i), d, t),
{
    let wc = window_col(c, r, d);
    let wr = window_row(c, r, d);
    let w = window(a, c, r, d);
    lemma_window_on_grid(c, r, d);
    let c0 = d.col_at(wc, i);
    let r0 = d.row_at(wr, i);
    assert(on_grid(d.col_at(wc, i), d.row_at(wr, i)));
    assert(on_grid(d.col_at(wc, i + 1), d.row_at(wr, i + 1)));
    assert(on_grid(d.col_at(wc, i + 2), d.row_at(wr, i + 2)));
    assert(on_grid(d.col_at(wc, i + 3), d.row_at(wr, i + 3)));
    assert(w[i] == a[idx(d.col_at(c0, 0), d.row_at(r0, 0))]);
    assert(w[i + 1] == a[idx(d.col_at(c0, 1), d.row_at(r0, 1))]);
    assert(w[i + 2] == a[idx(d.col_at(c0, 2), d.row_at(r0, 2))]);
    assert(w[i + 3] == a[idx(d.col_at(c0, 3), d.row_at(r0, 3))]);
}

/// Four in a window after a chip of `t` lands at column `c`, row `r` make,
/// with that chip, four through it.
proof fn lemma_window_through(b: Seq<Option<Color>>, c: int, r: int, d: Dir, t: Color)
    requires
        b.len() == 42,
        on_grid(c, r),
        has_run4(window(b.update(idx(c, r), Some(t)), c, r, d), t),
    ensures
        four_through(b.update(idx(c, r), Some(t)), c, r, d, t),
{
    let a = b.update(idx(c, r), Some(t));
    let wc = window_col(c, r, d);
    let wr = window_row(c, r, d);
    let i = choose|i: int| #[trigger] four_at(window(a, c, r, d), i, t);
    lemma_window_four(a, c, r, d, t, i);
    let c0 = d.col_at(wc, i);
    let r0 = d.row_at(wr, i);
    if d.col_at(c0, 0) == c && d.row_at(r0, 0) == r {
        lemma_back(c, r, d, c0, r0, 0);
        assert(four_back(a, c, r, 0, d, t));
    } else if d.col_at(c0, 1) == c && d.row_at(r0, 1) == r {
        lemma_back(c, r, d, c0, r0, 1);
        assert(four_back(a, c, r, 1, d, t));
    } else if d.col_at(c0, 2) == c && d.row_at(r0, 2) == r {
        lemma_back(c, r, d, c0, r0, 2);
        assert(four_back(a, c, r, 2, d, t));
    } else if d.col_at(c0, 3) == c && d.row_at(r0, 3) == r {
        lemma_back(c, r, d, c0, r0, 3);
        assert(four_back(a, c, r, 3, d, t));
    } else {
        lemma_four_before(c, r, d, i);
        assert(holds(a, c, r, t));
        lemma_fifth(a, c, r, d, t, c0, r0);
    }
}

/// A drop wins for the dropping color exactly when the new chip completes
/// four of that color along a column, a row or one of the two diagonals
/// through it: every direction counts, and no shorter run in any direction
/// does.
pub proof fn four_in_a_row_wins(b: BoardView, t: Color, col: int)
    requires
        b.wf(),
        b.state == BoardState::Turn(t),
        b.drop_error(t, col) is None,
    ensures
        ({
            let a = b.after_drop(t, col);
            let m = a.last_move->Some_0;
            (a.state == BoardState::Won(t)) <==> exists|d: Dir|
                #[trigger] four_through(a.cells, m.col as int, m.row as int, d, t)
        }),
{
    let a = b.after_drop(t, col);
    let r = b.landing_row(col);
    b.lemma_lowest_empty(col, 0);
    let m = a.last_move->Some_0;
    assert(m.col as int == col && m.row as int == r);
    assert(a.cells == b.cells.update(idx(col, r), Some(t)));
    if a.state == BoardState::Won(t) {
        assert(wins(a.cells, m));
        if has_run4(window(a.cells, col, r, Dir::Up), t) {
            lemma_window_through(b.cells, col, r, Dir::Up, t);
        } else if has_run4(window(a.cells, col, r, Dir::Right), t) {
            lemma_window_through(b.cells, col, r, Dir::Right, t);
        } else if has_run4(window(a.cells, col, r, Dir::UpRight), t) {
            lemma_window_through(b.cells, col, r, Dir::UpRight, t);
        } else {
            lemma_window_through(b.cells, col, r, Dir::DownRight, t);
        }
    }
    if exists|d: Dir| #[trigger] four_through(a.cells, m.col as int, m.row as int, d, t) {
        let d = choose|d: Dir| #[trigger] four_through(a.cells, m.col as int, m.row as int, d, t);
        lemma_through_in_window(a.cells, col, r, d, t);
        match d {
            Dir::Up => {},
            Dir::Right => {},
            Dir::UpRight => {},
            Dir::DownRight => {},
        }
        assert(wins(a.cells, m));
    }
}

/// Dropping into a column whose six cells are all taken fails with
/// `ChipOverflow` when it is the dropping color's turn, whatever the rest of
/// the grid holds, and leaves the board as it was.
pub proof fn full_column_overflows(b: BoardView, t: Color, col: int)
    requires
        b.wf(),
        b.state == BoardState::Turn(t),
        0 <= col < 7,
        forall|r: int| 0 <= r < 6 ==> #[trigger] b.cell(col, r) is Some,
    ensures
        b.drop_outcome(t, col) == Err::<DropResult, PlayError>(PlayError::ChipOverflow),
        b.after_drop(t, col) == b,
{
    b.lemma_lowest_empty(col, 0);
}

/// Dropping a chip of the color whose turn it is not fails with
/// `WrongColorChip` and leaves the board, counters included, as it was.
pub proof fn wrong_color_refused(b: BoardView, t: Color, color: Color, col: int)
    requires
        b.wf(),
        b.state == BoardState::Turn(t),
        color != t,
        0 <= col < 7,
    ensures
        b.drop_outcome(color, col) == Err::<DropResult, PlayError>(PlayError::WrongColorChip),
        b.after_drop(color, col) == b,
{
}

/// A drop that completes no four in a row ends the game in a stalemate
/// exactly when it fills the last empty cell of the grid, the 42nd chip:
/// never earlier.
pub proof fn stalemate_when_full(b: BoardView, t: Color, col: int)
    requires
        b.wf(),
        b.state == BoardState::Turn(t),
        b.drop_error(t, col) is None,
    ensures
        ({
            let a = b.after_drop(t, col);
            &&& a.wf()
            &&& (a.state == BoardState::Stalemate) <==> (!wins(a.cells, a.last_move->Some_0) && forall|
                i: int,
            | 0 <= i < 42 ==> #[trigger] a.cells[i] is Some)
            &&& (a.state == BoardState::Stalemate) ==> a.moves() == 42
        }),
{
    let a = b.after_drop(t, col);
    let r = b.landing_row(col);
    b.lemma_lowest_empty(col, 0);
    lemma_count_full(b.cells);
    lemma_count_update(b.cells, idx(col, r), Some(t), Some(Color::Red));
    lemma_count_update(b.cells, idx(col, r), Some(t), Some(Color::Blue));
    lemma_count_full(a.cells);
}

/// Board `v` with the chip of its last move taken out, and that move's color
/// to play.
pub open spec fn before_last(v: BoardView) -> BoardView {
    let m = v.last_move->Some_0;
    BoardView {
        cells: v.cells.update(idx(m.col as int, m.row as int), None),
        red: v.red - if m.color == Color::Red {
            1int
        } else {
            0int
        },
        blue: v.blue - if m.color == Color::Blue {
            1int
        } else {
            0int
        },
        last_move: None,
        state: BoardState::Turn(m.color),
    }
}

proof fn lemma_rows_ok(t: Seq<char>, k: int)
    requires
        0 <= k <= 6,
        grid_error(t, k) is None,
    ensures
        forall|j: int| k <= j < 6 ==> #[trigger] row_ok(t, j),
    decreases 6 - k,
{
    if k < 6 {
        lemma_rows_ok(t, k + 1);
    }
}

/// The marked chip of a well-formed text lies on the grid and holds the
/// mark's color.
proof fn lemma_marked_cell(t: Seq<char>)
    requires
        load_error(t) is None,
    ensures
        ({
            let m = marked_move(t);
            on_grid(m.col as int, m.row as int) && grid_cells(t)[idx(m.col as int, m.row as int)]
                == Some(m.color)
        }),
{
    lemma_rows_ok(t, 0);
    assert(row_ok(t, 5));
    assert(mark_before(t, 47));
    let p = mark_pos(t);
    assert(0 <= p < 47 && is_mark(t[p]));
    let k = p / 8;
    let j = p % 8;
    assert(p == 8 * k + j && 0 <= j < 8 && 0 <= k < 6);
    if j == 7 {
        assert(row_ok(t, k));
        assert(t[p] == '\n');
    }
    let m = marked_move(t);
    assert(m.col as int == j && m.row as int == 5 - k);
    let i = idx(j, 5 - k);
    assert(i / 6 == j && i % 6 == 5 - k);
    assert(text_pos(j, 5 - k) == p);
}

/// Loading a text gives the board, state included, that a live drop of the
/// marked chip gives on the same grid without that chip, its color to play,
/// where the marked chip rests on the chips below it.
pub proof fn load_replays_last_move(t: Seq<char>)
    requires
        load_error(t) is None,
        ({
            let v = loaded_view(t);
            let m = v.last_move->Some_0;
            forall|r: int| 0 <= r < m.row ==> #[trigger] v.cell(m.col as int, r) is Some
        }),
    ensures
        ({
            let v = loaded_view(t);
            let m = v.last_move->Some_0;
            let pre = before_last(v);
            &&& pre.wf()
            &&& pre.drop_error(m.color, m.col as int) is None
            &&& pre.after_drop(m.color, m.col as int) == v
        }),
{
    let v = loaded_view(t);
    let m = v.last_move->Some_0;
    let pre = before_last(v);
    let c = m.col as int;
    let r = m.row as int;
    lemma_marked_cell(t);
    lemma_count_full(v.cells);
    lemma_count_update(v.cells, idx(c, r), None, Some(Color::Red));
    lemma_count_update(v.cells, idx(c, r), None, Some(Color::Blue));
    assert forall|k: int| 0 <= k < r implies #[trigger] pre.cell(c, k) is Some by {
        assert(idx(c, k) != idx(c, r));
        assert(v.cell(c, k) is Some);
    }
    pre.lemma_landing_at(c, r);
    let a = pre.placed(m.color, c);
    assert(a.cells =~= v.cells);
    assert(a == v);
}

/// The first player to connect takes the red seat: nothing is sent, and the
/// session waits for blue.
pub proof fn first_player_seated_red(
    g: GameView,
    u: String,
    post: GameView,
    r: Result<Seq<Action>, GameError>,
)
    requires
        g.wf(),
        g.state == GameState::AwaitingRed,
        g.steps_to(Event::Connected(u), post, r),
    ensures
        post.state == GameState::AwaitingBlue,
        post.red == Some(u@),
        post.blue is None,
        post.board == g.board,
        r == Ok::<Seq<Action>, GameError>(seq![Action::Seat(Color::Red)]),
{
}

/// The second player to connect takes the blue seat and the game starts:
/// one and the same board message goes to red and then to blue.
pub proof fn second_player_starts_game(
    g: GameView,
    u: String,
    post: GameView,
    r: Result<Seq<Action>, GameError>,
)
    requires
        g.wf(),
        g.state == GameState::AwaitingBlue,
        g.steps_to(Event::Connected(u), post, r),
    ensures
        post.state == GameState::Playing,
        post.red == g.red,
        post.blue == Some(u@),
        post.board == g.board,
        ({
            &&& r matches Ok(a)
            &&& a.len() == 2
            &&& a[0] == Action::Seat(Color::Blue)
            &&& a[1] matches Action::Broadcast(m)
            &&& is_board_message(m, g.board)
        }),
{
}

/// A move from the player whose turn it is not goes back to that player alone
/// as `InvalidMove(WrongColorChip)`; the session and its board stay as they
/// were.
pub proof fn out_of_turn_move_refused(
    g: GameView,
    from: Color,
    column: usize,
    post: GameView,
    r: Result<Seq<Action>, GameError>,
)
    requires
        g.wf(),
        g.state == GameState::Playing,
        g.board.state != BoardState::Turn(from),
        column < 7,
        g.steps_to(Event::Received(from, Message::DropChip { column }), post, r),
    ensures
        post == g,
        r == Ok::<Seq<Action>, GameError>(
            seq![Action::Send(from, Message::InvalidMove(PlayError::WrongColorChip))],
        ),
{
    let b = g.board;
    assert(b.drop_error(from, column as int) == Some(PlayError::WrongColorChip));
    let a = r->Ok_0;
    assert(a =~= seq![Action::Send(from, Message::InvalidMove(PlayError::WrongColorChip))]);
    assert(post == g);
}

/// A third connection while both seats are taken is sent `TooManyPlayers`
/// and closed; the seated players, the board and the state stay as they were.
pub proof fn newcomer_dismissed_while_playing(
    g: GameView,
    u: String,
    post: GameView,
    r: Result<Seq<Action>, GameError>,
)
    requires
        g.wf(),
        g.state == GameState::Playing,
        g.steps_to(Event::Connected(u), post, r),
    ensures
        post == g,
        r == Ok::<Seq<Action>, GameError>(seq![Action::Dismiss(Message::TooManyPlayers)]),
{
}

/// A seated player leaving during play ends the game, with nothing sent and
/// the board as it was; after that no message changes anything.
pub proof fn leaving_player_ends_game(
    g: GameView,
    u: String,
    post: GameView,
    r: Result<Seq<Action>, GameError>,
    e: Event,
    later: GameView,
    r2: Result<Seq<Action>, GameError>,
)
    requires
        g.wf(),
        g.state == GameState::Playing,
        g.red == Some(u@) || g.blue == Some(u@),
        g.steps_to(Event::Disconnected(u), post, r),
        post.steps_to(e, later, r2),
    ensures
        post.state == GameState::GameOver,
        post.board == g.board,
        post.red == g.red,
        post.blue == g.blue,
        r == Ok::<Seq<Action>, GameError>(seq![]),
        later == post,
        r2 == Ok::<Seq<Action>, GameError>(seq![]),
{
}

/// The empty board, Red to move.
pub open spec fn empty_view() -> BoardView {
    BoardView {
        cells: Seq::new(42, |i: int| None::<Color>),
        red: 0,
        blue: 0,
        last_move: None,
        state: BoardState::Turn(Color::Red),
    }
}

/// Color of the `i`-th drop of a game, counting from 0: Red first.
pub open spec fn mover(i: int) -> Color {
    if i % 2 == 0 {
        Color::Red
    } else {
        Color::Blue
    }
}

/// The board after the drops into columns `cols`, colors alternating from
/// Red, on an empty board.
pub open spec fn replay(cols: Seq<int>) -> BoardView
    decreases cols.len(),
{
    if cols.len() == 0 {
        empty_view()
    } else {
        replay(cols.drop_last()).after_drop(mover(cols.len() - 1), cols.last())
    }
}

/// Every drop into `cols`, replayed on an empty board, is accepted.
pub open spec fn replay_ok(cols: Seq<int>) -> bool
    decreases cols.len(),
{
    if cols.len() == 0 {
        true
    } else {
        replay_ok(cols.drop_last()) && replay(cols.drop_last()).drop_error(
            mover(cols.len() - 1),
            cols.last(),
        ) is None
    }
}

/// A text of 6 lines of 7 cell symbols.
pub open spec fn grid_text(t: Seq<char>) -> bool {
    &&& t.len() == 47
    &&& forall|p: int| 0 <= p < 47 && p % 8 == 7 ==> #[trigger] t[p] == '\n'
    &&& forall|p: int| 0 <= p < 47 && p % 8 != 7 ==> is_symbol(#[trigger] t[p])
}

proof fn lemma_empty_wf()
    ensures
        empty_view().wf(),
{
    let s = empty_view().cells;
    assert forall|i: int| 0 <= i < s.len() implies !(#[trigger] s[i] is Some) by {}
    lemma_count_none_all(s, Some(Color::Red));
    lemma_count_none_all(s, Some(Color::Blue));
}

proof fn lemma_count_none_all(s: Seq<Option<Color>>, x: Option<Color>)
    requires
        x is Some,
        forall|i: int| 0 <= i < s.len() ==> #[trigger] s[i] is None,
    ensures
        count(s, x) == 0,
    decreases s.len(),
{
    if s.len() > 0 {
        let d = s.drop_last();
        assert forall|i: int| 0 <= i < d.len() implies #[trigger] d[i] is None by {
            assert(s[i] is None);
        }
        lemma_count_none_all(d, x);
    }
}

/// An accepted replay keeps the board well formed, with Red's drops and
/// Blue's drops counted.
proof fn lemma_replay(cols: Seq<int>)
    requires
        replay_ok(cols),
    ensures
        replay(cols).wf(),
        replay(cols).red == (cols.len() + 1) / 2,
        replay(cols).blue == cols.len() / 2,
        cols.len() > 0 ==> replay(cols).last_move is Some,
        cols.len() > 0 ==> replay(cols).state == next_state_of(replay(cols)),
    decreases cols.len(),
{
    if cols.len() == 0 {
        lemma_empty_wf();
    } else {
        let pre = cols.drop_last();
        lemma_replay(pre);
        let b = replay(pre);
        let t = mover(cols.len() - 1);
        assert(b.state == BoardState::Turn(t));
        stalemate_when_full(b, t, cols.last());
    }
}

/// The state that the last move of `v` yields on `v`'s cells.
pub open spec fn next_state_of(v: BoardView) -> BoardState {
    crate::board::next_state(v.cells, v.last_move->Some_0, v.moves())
}

proof fn lemma_newlines_grid(t: Seq<char>, p: int)
    requires
        grid_text(t),
        0 <= p <= 47,
    ensures
        newlines(t.take(p)) == p / 8,
    decreases p,
{
    if p > 0 {
        lemma_newlines_grid(t, p - 1);
        assert(t.take(p).drop_last() =~= t.take(p - 1));
        if (p - 1) % 8 == 7 {
            assert(t[p - 1] == '\n');
        } else {
            assert(is_symbol(t[p - 1]));
        }
    }
}

proof fn lemma_line_ok(t: Seq<char>, k: int, j: int, mp: int)
    requires
        grid_text(t),
        0 <= k < 6,
        0 <= j <= 7,
        forall|p: int| 0 <= p < 47 ==> (#[trigger] is_mark(t[p]) <==> p == mp),
    ensures
        line_error(t, k, j) is None,
    decreases 7 - j,
{
    if j < 7 {
        let p = 8 * k + j;
        assert(p % 8 == j);
        assert(is_symbol(t[p]));
        if is_mark(t[p]) && mark_before(t, p) {
            let q = choose|q: int| 0 <= q < p && #[trigger] is_mark(t[q]);
            assert(q == mp);
        }
        assert(symbol_error(t, p) is None);
        lemma_line_ok(t, k, j + 1, mp);
    }
}

proof fn lemma_grid_ok(t: Seq<char>, k: int, mp: int)
    requires
        grid_text(t),
        0 <= k <= 6,
        forall|p: int| 0 <= p < 47 ==> (#[trigger] is_mark(t[p]) <==> p == mp),
    ensures
        grid_error(t, k) is None,
    decreases 6 - k,
{
    if k < 6 {
        assert forall|p: int| 8 * k <= p < 8 * k + 7 implies #[trigger] t[p] != '\n' by {
            assert(p % 8 != 7);
            assert(is_symbol(t[p]));
        }
        if k < 5 {
            assert((8 * k + 7) % 8 == 7);
        }
        assert(row_ok(t, k));
        lemma_line_ok(t, k, 0, mp);
        lemma_grid_ok(t, k + 1, mp);
    }
}

/// Loading the text of a game's grid, its last chip marked, gives the board
/// that replaying the game drop by drop from an empty board gives: the same
/// cells, counters, last move and state.
pub proof fn load_replays_game(t: Seq<char>, cols: Seq<int>)
    requires
        cols.len() > 0,
        replay_ok(cols),
        grid_text(t),
        grid_cells(t) == replay(cols).cells,
        ({
            let m = replay(cols).last_move->Some_0;
            forall|p: int|
                0 <= p < 47 ==> (#[trigger] is_mark(t[p]) <==> p == text_pos(
                    m.col as int,
                    m.row as int,
                ))
        }),
    ensures
        load_error(t) is None,
        loaded_view(t) == replay(cols),
{
    let v = replay(cols);
    lemma_replay(cols);
    let m = v.last_move->Some_0;
    let c = m.col as int;
    let r = m.row as int;
    let mp = text_pos(c, r);
    assert(on_grid(c, r));
    assert(0 <= mp < 47);
    lemma_newlines_grid(t, 47);
    assert(t.take(47) =~= t);
    lemma_grid_ok(t, 0, mp);
    assert(is_mark(t[mp]));
    assert(mark_before(t, 47));
    assert(load_error(t) is None);
    let p = mark_pos(t);
    assert(p == mp);
    assert(mp % 8 == c && mp / 8 == 5 - r);
    let i = idx(c, r);
    assert(i / 6 == c && i % 6 == r);
    assert(grid_cells(t)[i] == chip_of(t[mp]));
    assert(v.cells[i] == Some(m.color));
    assert(marked_move(t) == m);
    assert(loaded_view(t) == v);
}

} // verus!
