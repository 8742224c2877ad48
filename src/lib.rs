pub mod board;
pub mod game;
pub mod message;
pub mod proofs;
pub mod text;

pub use board::{Board, BoardState, Color, DropResult, LoadError, Move, PlayError, Turn};
pub use game::{Action, Event, Game, GameError, GameState};
pub use message::Message;
