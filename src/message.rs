use crate::board::{Board, BoardState, BoardView, Color, Move, PlayError};
use vstd::prelude::*;

verus! {

/// The messages exchanged with a player: one command in, notifications and
/// errors out.
#[derive(Clone, Debug, PartialEq)]
pub enum Message {
    /// From a player: drop a chip into this column.
    DropChip { column: usize },
    /// The payload could not be decoded as any message.
    InvalidFormat,
    /// The message is no legal input here.
    InvalidMessage,
    /// Both seats are filled; `turn` moves first.
    Board { turn: Color, board: String },
    Moved { last_mover: Color, last_move: Move, board: String },
    Won { winner: Color, last_move: Move, board: String },
    Stalemate { last_move: Move, board: String },
    /// The board refused the sender's drop.
    InvalidMove(PlayError),
    /// Both seats are taken.
    TooManyPlayers,
}

/// `m` announces board `b`, whose turn it is.
pub open spec fn is_board_message(m: Message, b: BoardView) -> bool {
    m matches Message::Board { turn, board } && b.state == BoardState::Turn(turn) && board@
        == b.text()
}

/// `m` announces that `winner` won board `b`.
pub open spec fn is_won_message(m: Message, b: BoardView, winner: Color) -> bool {
    m matches Message::Won { winner: w, last_move, board } && w == winner && b.last_move == Some(
        last_move,
    ) && board@ == b.text()
}

/// `m` announces that board `b` ended in a stalemate.
pub open spec fn is_stalemate_message(m: Message, b: BoardView) -> bool {
    m matches Message::Stalemate { last_move, board } && b.last_move == Some(last_move) && board@
        == b.text()
}

/// `m` announces move `mv` of `mover`, which left board `b`.
pub open spec fn is_moved_message(m: Message, b: BoardView, mv: Move, mover: Color) -> bool {
    m matches Message::Moved { last_mover, last_move, board } && last_mover == mover && last_move
        == mv && board@ == b.text()
}

impl Message {
    /// The opening announcement of board `b`.
    pub fn board(b: &Board) -> (r: Message)
        requires
            b@.wf(),
            b@.state is Turn,
        ensures
            is_board_message(r, b@),
    {
        let turn = match b.state() {
            BoardState::Turn(t) => t,
            _ => Color::Red,
        };
        Message::Board { turn: turn, board: b.render() }
    }

    /// The announcement that `winner` won board `b`.
    pub fn won(b: &Board, winner: Color) -> (r: Message)
        requires
            b@.wf(),
            b@.last_move is Some,
        ensures
            is_won_message(r, b@, winner),
    {
        let last_move = match b.last_move() {
            Some(m) => m,
            None => Move { color: winner, row: 0, col: 0 },
        };
        Message::Won { winner, last_move, board: b.render() }
    }

    /// The announcement that board `b` ended in a stalemate.
    pub fn stalemate(b: &Board) -> (r: Message)
        requires
            b@.wf(),
            b@.last_move is Some,
        ensures
            is_stalemate_message(r, b@),
    {
        let last_move = match b.last_move() {
            Some(m) => m,
            None => Move { color: Color::Red, row: 0, col: 0 },
        };
        Message::Stalemate { last_move, board: b.render() }
    }

    /// The announcement of move `last_move` of `mover`, which left board `b`.
    pub fn moved(b: &Board, last_move: Move, mover: Color) -> (r: Message)
        requires
            b@.wf(),
        ensures
            is_moved_message(r, b@, last_move, mover),
    {
        Message::Moved { last_mover: mover, last_move: last_move, board: b.render() }
    }
}

} // verus!
