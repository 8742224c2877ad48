use connect4::{Action, Board, BoardState, Color, Event, Game, GameError, GameState, Message, PlayError};

fn connected(name: &str) -> Event {
    Event::Connected(String::from(name))
}

fn disconnected(name: &str) -> Event {
    Event::Disconnected(String::from(name))
}

fn drop_from(seat: Color, column: usize) -> Event {
    Event::Received(seat, Message::DropChip { column })
}

fn playing_game() -> Game {
    let mut game = Game::new();
    game.step(connected("alice")).unwrap();
    game.step(connected("bob")).unwrap();
    game
}

#[test]
fn two_players_are_seated_and_see_the_same_board() {
    let mut game = Game::new();
    assert_eq!(game.state(), GameState::AwaitingRed);
    let actions = game.step(connected("alice")).unwrap();
    assert_eq!(actions, vec![Action::Seat(Color::Red)]);
    assert_eq!(game.state(), GameState::AwaitingBlue);
    let actions = game.step(connected("bob")).unwrap();
    assert_eq!(game.state(), GameState::Playing);
    assert_eq!(actions.len(), 2);
    assert_eq!(actions[0], Action::Seat(Color::Blue));
    // one message, sent to red and then to blue
    assert_eq!(
        actions[1],
        Action::Broadcast(Message::Board { turn: Color::Red, board: Board::new().render() })
    );
}

#[test]
fn move_out_of_turn_goes_back_to_sender_only() {
    let mut game = playing_game();
    let before = game.board().render();
    let actions = game.step(drop_from(Color::Blue, 0)).unwrap();
    assert_eq!(
        actions,
        vec![Action::Send(Color::Blue, Message::InvalidMove(PlayError::WrongColorChip))]
    );
    assert_eq!(game.state(), GameState::Playing);
    assert_eq!(game.board().render(), before);
    assert_eq!(game.board().last_move(), None);
}

#[test]
fn legal_move_is_broadcast() {
    let mut game = playing_game();
    let actions = game.step(drop_from(Color::Red, 3)).unwrap();
    assert_eq!(actions.len(), 1);
    match &actions[0] {
        Action::Broadcast(Message::Moved { last_mover, last_move, board }) => {
            assert_eq!(*last_mover, Color::Red);
            assert_eq!(last_move.col, 3);
            assert_eq!(last_move.row, 0);
            assert_eq!(*board, game.board().render());
        }
        other => panic!("unexpected {:?}", other),
    }
    assert_eq!(game.board().state(), BoardState::Turn(Color::Blue));
    assert_eq!(game.state(), GameState::Playing);
}

#[test]
fn bad_column_is_reported_to_sender() {
    let mut game = playing_game();
    let actions = game.step(drop_from(Color::Red, 9)).unwrap();
    assert_eq!(actions, vec![Action::Send(Color::Red, Message::InvalidMove(PlayError::OutOfRange))]);
}

#[test]
fn other_messages_are_invalid_here() {
    let mut game = playing_game();
    let actions = game.step(Event::Received(Color::Red, Message::TooManyPlayers)).unwrap();
    assert_eq!(actions, vec![Action::Send(Color::Red, Message::InvalidMessage)]);
    assert_eq!(game.state(), GameState::Playing);
}

#[test]
fn third_player_is_turned_away() {
    let mut game = playing_game();
    let before = game.board().render();
    let actions = game.step(connected("carol")).unwrap();
    assert_eq!(actions, vec![Action::Dismiss(Message::TooManyPlayers)]);
    assert_eq!(game.state(), GameState::Playing);
    assert_eq!(game.board().render(), before);
    // alice and bob play on
    assert_eq!(game.step(drop_from(Color::Red, 0)).unwrap().len(), 1);
    assert_eq!(game.board().state(), BoardState::Turn(Color::Blue));
}

#[test]
fn red_leaving_ends_the_game() {
    let mut game = playing_game();
    game.step(drop_from(Color::Red, 0)).unwrap();
    let actions = game.step(disconnected("alice")).unwrap();
    assert!(actions.is_empty());
    assert_eq!(game.state(), GameState::GameOver);
    let before = game.board().render();
    let actions = game.step(drop_from(Color::Blue, 1)).unwrap();
    assert!(actions.is_empty());
    assert_eq!(game.board().render(), before);
    assert_eq!(game.board().state(), BoardState::Turn(Color::Blue));
}

#[test]
fn unknown_name_leaving_changes_nothing() {
    let mut game = playing_game();
    let actions = game.step(disconnected("carol")).unwrap();
    assert!(actions.is_empty());
    assert_eq!(game.state(), GameState::Playing);
}

#[test]
fn red_leaving_before_blue_frees_the_seat() {
    let mut game = Game::new();
    game.step(connected("alice")).unwrap();
    assert!(game.step(disconnected("someone")).unwrap().is_empty());
    assert_eq!(game.state(), GameState::AwaitingBlue);
    assert_eq!(game.step(disconnected("alice")).unwrap(), vec![Action::Vacate(Color::Red)]);
    assert_eq!(game.state(), GameState::AwaitingRed);
    assert_eq!(game.step(connected("dave")).unwrap(), vec![Action::Seat(Color::Red)]);
}

#[test]
fn impossible_events_are_errors() {
    let mut game = Game::new();
    assert_eq!(game.step(disconnected("alice")).unwrap_err(), GameError::WtfState);
    assert_eq!(game.step(drop_from(Color::Red, 0)).unwrap_err(), GameError::WtfState);
    assert_eq!(game.state(), GameState::AwaitingRed);
}

#[test]
fn winning_move_ends_the_game() {
    let mut game = playing_game();
    for &(seat, column) in &[
        (Color::Red, 0),
        (Color::Blue, 1),
        (Color::Red, 0),
        (Color::Blue, 1),
        (Color::Red, 0),
        (Color::Blue, 1),
    ] {
        game.step(drop_from(seat, column)).unwrap();
    }
    let actions = game.step(drop_from(Color::Red, 0)).unwrap();
    match &actions[..] {
        [Action::Broadcast(Message::Won { winner, last_move, board })] => {
            assert_eq!(*winner, Color::Red);
            assert_eq!((last_move.col, last_move.row), (0, 3));
            assert_eq!(*board, game.board().render());
        }
        other => panic!("unexpected {:?}", other),
    }
    assert_eq!(game.state(), GameState::GameOver);
    assert!(game.step(drop_from(Color::Blue, 1)).unwrap().is_empty());
}
