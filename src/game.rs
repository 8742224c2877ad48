use crate::board::{Board, BoardState, BoardView, Color, PlayError};
use crate::message::{
    is_board_message, is_moved_message, is_stalemate_message, is_won_message, Message,
};
use vstd::prelude::*;

verus! {

/// Where a session stands.
#[derive(Clone, Copy, Debug, PartialEq, Eq, Structural)]
pub enum GameState {
    AwaitingRed,
    AwaitingBlue,
    Playing,
    GameOver,
}

/// Failures that end a session.
#[derive(Clone, Copy, Debug, PartialEq, Eq, Structural)]
pub enum GameError {
    /// No more connections can arrive.
    ConnectionUpdateClosed,
    /// A message could not be sent to a seated player.
    ConnectionError,
    /// An event arrived that the current state cannot have.
    WtfState,
}

/// What a session learns from its surroundings.
#[derive(Debug)]
pub enum Event {
    /// A player with this name connected.
    Connected(String),
    /// The player with this name went away.
    Disconnected(String),
    /// The player of this seat sent a message.
    Received(Color, Message),
}

/// What a session asks its surroundings to do, in order.
#[derive(Debug, PartialEq)]
pub enum Action {
    /// Keep the connection that just arrived, in this seat.
    Seat(Color),
    /// Let go of the connection of this seat.
    Vacate(Color),
    /// Send to the player of this seat.
    Send(Color, Message),
    /// Send to red, then to blue; a failure ends the session.
    Broadcast(Message),
    /// Send to the connection that just arrived, then close it.
    Dismiss(Message),
}

/// A session of one game between two seated players.
#[derive(Debug)]
pub struct Game {
    state: GameState,
    board: Board,
    red: Option<String>,
    blue: Option<String>,
}

/// The mathematical model of a session.
pub struct GameView {
    pub state: GameState,
    pub board: BoardView,
    /// Name of the red player, if seated.
    pub red: Option<Seq<char>>,
    /// Name of the blue player, if seated.
    pub blue: Option<Seq<char>>,
}

pub open spec fn name_of(o: Option<String>) -> Option<Seq<char>> {
    match o {
        Some(s) => Some(s@),
        None => None,
    }
}

impl View for Game {
    type V = GameView;

    closed spec fn view(&self) -> GameView {
        GameView {
            state: self.state,
            board: self.board@,
            red: name_of(self.red),
            blue: name_of(self.blue),
        }
    }
}

impl GameView {
    pub open spec fn wf(self) -> bool {
        &&& self.board.wf()
        &&& match self.state {
            GameState::AwaitingRed => self.red is None && self.blue is None
                && self.board.state is Turn,
            GameState::AwaitingBlue => self.red is Some && self.blue is None
                && self.board.state is Turn,
            GameState::Playing => self.red is Some && self.blue is Some
                && self.board.state is Turn,
            GameState::GameOver => self.red is Some && self.blue is Some,
        }
    }

    /// The same session in another state.
    pub open spec fn with_state(self, state: GameState) -> GameView {
        GameView { state, ..self }
    }

    /// `u` is the name of a seated player.
    pub open spec fn seated(self, u: Seq<char>) -> bool {
        self.red == Some(u) || self.blue == Some(u)
    }

    /// The outcome of a move message from `from` that asks for column
    /// `column`: the session `post` after it and the actions `a`.
    pub open spec fn after_drop_message(
        self,
        from: Color,
        column: int,
        post: GameView,
        a: Seq<Action>,
    ) -> bool {
        let b = self.board.after_drop(from, column);
        &&& post.board == b
        &&& post.red == self.red
        &&& post.blue == self.blue
        &&& a.len() == 1
        &&& match self.board.drop_outcome(from, column) {
            Ok(res) => match res.state {
                BoardState::Turn(_) => {
                    &&& post.state == self.state
                    &&& a[0] matches Action::Broadcast(m)
                    &&& is_moved_message(m, b, res.last_move, from)
                },
                BoardState::Won(w) => {
                    &&& post.state == GameState::GameOver
                    &&& a[0] matches Action::Broadcast(m)
                    &&& is_won_message(m, b, w)
                },
                BoardState::Stalemate => {
                    &&& post.state == GameState::GameOver
                    &&& a[0] matches Action::Broadcast(m)
                    &&& is_stalemate_message(m, b)
                },
            },
            Err(PlayError::GameOver(w)) => {
                &&& post.state == self.state
                &&& a[0] matches Action::Send(c, m)
                &&& c == from
                &&& is_won_message(m, b, w)
            },
            Err(PlayError::Stalemate) => {
                &&& post.state == self.state
                &&& a[0] matches Action::Send(c, m)
                &&& c == from
                &&& is_stalemate_message(m, b)
            },
            Err(e) => post.state == self.state && a[0] == Action::Send(
                from,
                Message::InvalidMove(e),
            ),
        }
    }

    /// Session `post` and result `r` follow from this session and event `e`.
    pub open spec fn steps_to(
        self,
        e: Event,
        post: GameView,
        r: Result<Seq<Action>, GameError>,
    ) -> bool {
        match self.state {
            GameState::AwaitingRed => match e {
                Event::Connected(u) => post == (GameView {
                    state: GameState::AwaitingBlue,
                    red: Some(u@),
                    ..self
                }) && r == Ok::<Seq<Action>, GameError>(seq![Action::Seat(Color::Red)]),
                _ => post == self && r == Err::<Seq<Action>, GameError>(GameError::WtfState),
            },
            GameState::AwaitingBlue => match e {
                Event::Connected(u) => {
                    &&& post == (GameView {
                        state: GameState::Playing,
                        blue: Some(u@),
                        ..self
                    })
                    &&& r matches Ok(a)
                    &&& a.len() == 2
                    &&& a[0] == Action::Seat(Color::Blue)
                    &&& a[1] matches Action::Broadcast(m)
                    &&& is_board_message(m, self.board)
                },
                Event::Disconnected(u) => if self.red == Some(u@) {
                    post == (GameView { state: GameState::AwaitingRed, red: None, ..self }) && r
                        == Ok::<Seq<Action>, GameError>(seq![Action::Vacate(Color::Red)])
                } else {
                    post == self && r == Ok::<Seq<Action>, GameError>(seq![])
                },
                Event::Received(..) => post == self && r == Err::<Seq<Action>, GameError>(
                    GameError::WtfState,
                ),
            },
            GameState::Playing => match e {
                Event::Connected(_) => post == self && r == Ok::<Seq<Action>, GameError>(
                    seq![Action::Dismiss(Message::TooManyPlayers)],
                ),
                Event::Disconnected(u) => r == Ok::<Seq<Action>, GameError>(seq![]) && post == if self.seated(u@) {
                    self.with_state(GameState::GameOver)
                } else {
                    self
                },
                Event::Received(from, msg) => match msg {
                    Message::DropChip { column } => r matches Ok(a) && self.after_drop_message(
                        from,
                        column as int,
                        post,
                        a,
                    ),
                    _ => post == self && r == Ok::<Seq<Action>, GameError>(
                        seq![Action::Send(from, Message::InvalidMessage)],
                    ),
                },
            },
            GameState::GameOver => post == self && r == Ok::<Seq<Action>, GameError>(seq![]),
        }
    }
}

/// The view of a step's result.
pub open spec fn result_view(r: Result<Vec<Action>, GameError>) -> Result<Seq<Action>, GameError> {
    match r {
        Ok(a) => Ok(a@),
        Err(e) => Err(e),
    }
}

fn one(a: Action) -> (r: Vec<Action>)
    ensures
        r@ == seq![a],
{
    let mut v: Vec<Action> = Vec::new();
    v.push(a);
    v
}

impl Game {
    /// A session that waits for its first player.
    pub fn new() -> (r: Game)
        ensures
            r@.wf(),
            r@.state == GameState::AwaitingRed,
            r@.red is None,
            r@.blue is None,
            r@.board.state == BoardState::Turn(Color::Red),
            r@.board.moves() == 0,
    {
        Game { state: GameState::AwaitingRed, board: Board::new(), red: None, blue: None }
    }

    /// The session's state.
    pub fn state(&self) -> (r: GameState)
        ensures
            r == self@.state,
    {
        self.state
    }

    /// The session's board.
    pub fn board(&self) -> (r: &Board)
        ensures
            r@ == self@.board,
    {
        &self.board
    }

    /// Handles one event: updates the session and says what to do.
    pub fn step(&mut self, event: Event) -> (r: Result<Vec<Action>, GameError>)
        requires
            old(self)@.wf(),
        ensures
            final(self)@.wf(),
            old(self)@.steps_to(event, final(self)@, result_view(r)),
    {
        match self.state {
            GameState::AwaitingRed | GameState::AwaitingBlue => self.awaiting_connections(event),
            GameState::Playing => self.play(event),
            GameState::GameOver => Ok(Vec::new()),
        }
    }

    fn awaiting_connections(&mut self, event: Event) -> (r: Result<Vec<Action>, GameError>)
        requires
            old(self)@.wf(),
            old(self)@.state == GameState::AwaitingRed || old(self)@.state
                == GameState::AwaitingBlue,
        ensures
            final(self)@.wf(),
            old(self)@.steps_to(event, final(self)@, result_view(r)),
    {
        match event {
            Event::Connected(username) => {
                if self.state == GameState::AwaitingRed {
                    self.red = Some(username);
                    self.state = GameState::AwaitingBlue;
                    Ok(one(Action::Seat(Color::Red)))
                } else {
                    self.blue = Some(username);
                    self.state = GameState::Playing;
                    let mut actions: Vec<Action> = Vec::new();
                    actions.push(Action::Seat(Color::Blue));
                    actions.push(Action::Broadcast(Message::board(&self.board)));
                    Ok(actions)
                }
            },
            Event::Disconnected(username) => {
                if self.state == GameState::AwaitingRed {
                    return Err(GameError::WtfState);
                }
                let is_red = match &self.red {
                    Some(red) => *red == username,
                    None => false,
                };
                if is_red {
                    self.red = None;
                    self.state = GameState::AwaitingRed;
                    Ok(one(Action::Vacate(Color::Red)))
                } else {
                    Ok(Vec::new())
                }
            },
            Event::Received(_, _) => Err(GameError::WtfState),
        }
    }

    fn play(&mut self, event: Event) -> (r: Result<Vec<Action>, GameError>)
        requires
            old(self)@.wf(),
            old(self)@.state == GameState::Playing,
        ensures
            final(self)@.wf(),
            old(self)@.steps_to(event, final(self)@, result_view(r)),
    {
        match event {
            Event::Received(from, message) => self.play_message(from, message),
            Event::Connected(username) => self.play_connection_update(Event::Connected(username)),
            Event::Disconnected(username) => self.play_connection_update(
                Event::Disconnected(username),
            ),
        }
    }

    /// Handles a message from the player of seat `from`.
    fn play_message(&mut self, from: Color, msg: Message) -> (r: Result<Vec<Action>, GameError>)
        requires
            old(self)@.wf(),
            old(self)@.state == GameState::Playing,
        ensures
            final(self)@.wf(),
            old(self)@.steps_to(Event::Received(from, msg), final(self)@, result_view(r)),
    {
        let column = match msg {
            Message::DropChip { column } => column,
            _ => {
                return Ok(one(Action::Send(from, Message::InvalidMessage)));
            },
        };
        match self.board.drop_chip(from, column) {
            Ok(drop_res) => {
                let broadcast_msg = match drop_res.state {
                    BoardState::Turn(_) => Message::moved(&self.board, drop_res.last_move, from),
                    BoardState::Won(winner) => {
                        self.state = GameState::GameOver;
                        Message::won(&self.board, winner)
                    },
                    BoardState::Stalemate => {
                        self.state = GameState::GameOver;
                        Message::stalemate(&self.board)
                    },
                };
                Ok(one(Action::Broadcast(broadcast_msg)))
            },
            Err(play_err) => {
                let feedback_msg = match play_err {
                    PlayError::GameOver(winner) => Message::won(&self.board, winner),
                    PlayError::Stalemate => Message::stalemate(&self.board),
                    play_err => Message::InvalidMove(play_err),
                };
                Ok(one(Action::Send(from, feedback_msg)))
            },
        }
    }

    /// Handles a connection event while both seats are taken.
    fn play_connection_update(&mut self, cu: Event) -> (r: Result<Vec<Action>, GameError>)
        requires
            old(self)@.wf(),
            old(self)@.state == GameState::Playing,
            !(cu is Received),
        ensures
            final(self)@.wf(),
            old(self)@.steps_to(cu, final(self)@, result_view(r)),
    {
        match cu {
            Event::Disconnected(username) => {
                let red_disconnected = match &self.red {
                    Some(red) => *red == username,
                    None => false,
                };
                let blue_disconnected = match &self.blue {
                    Some(blue) => *blue == username,
                    None => false,
                };
                if red_disconnected || blue_disconnected {
                    self.state = GameState::GameOver;
                }
                Ok(Vec::new())
            },
            _ => Ok(one(Action::Dismiss(Message::TooManyPlayers))),
        }
    }
}

} // verus!
