use connect4::{Board, BoardState, Color, DropResult, LoadError, Message, Move, PlayError};

const BORDER: &str = "+━━━━━━━━━━━━━━━+\n";

fn drop_all(board: &mut Board, columns: &[usize]) -> Vec<Result<DropResult, PlayError>> {
    let mut turn = Color::Red;
    let mut results = Vec::new();
    for &c in columns {
        let r = board.drop_chip(turn, c);
        turn = turn.toggle();
        results.push(r);
    }
    results
}

// A full game in which nobody ever has four in a row.
const DRAWN_GAME: [usize; 42] = [
    0, 0, 0, 0, 0, 0, 1, 1, 1, 1, 1, 1, 2, 2, 2, 2, 2, 2, 4, 3, 3, 3, 3, 3, 3, 4, 4, 4, 4, 4, 5,
    5, 5, 5, 5, 5, 6, 6, 6, 6, 6, 6,
];

#[test]
fn test_win_vertical() {
    let layout = r#".......
.......
R......
rb.....
rb.....
rb....."#;

    let board = Board::load(layout);
    let board = board.unwrap();
    println!("{}", board.render());
    assert_eq!(board.state(), BoardState::Won(Color::Red));
}

#[test]
fn test_win_horizontal() {
    let layout = r#".......
.......
.......
.......
...bb.b
...rrRr"#;

    let board = Board::load(layout);
    let board = board.unwrap();
    println!("{}", board.render());
    assert_eq!(board.state(), BoardState::Won(Color::Red));
}

#[test]
fn test_win_diagonal_inverse() {
    let layout = r#".......
r......
bR.....
brr....
rbbr...
rbbb..."#;

    let board = Board::load(layout);
    let board = board.unwrap();
    println!("{}", board.render());
    assert_eq!(board.state(), BoardState::Won(Color::Red));
}

#[test]
fn test_win_diagonal() {
    let layout = r#".......
.......
......r
.....rb
....rbb
...Rrbb"#;

    let board = Board::load(layout);
    let board = board.unwrap();
    println!("{}", board.render());
    assert_eq!(board.state(), BoardState::Won(Color::Red));
}

#[test]
fn new_board_is_empty_and_red_moves() {
    let board = Board::new();
    assert_eq!(board.state(), BoardState::Turn(Color::Red));
    assert_eq!(board.last_move(), None);
    let mut expected = String::from("Connect4\n");
    expected.push_str(BORDER);
    for _ in 0..6 {
        expected.push_str("| - - - - - - - |\n");
    }
    expected.push_str(BORDER);
    expected.push_str("Turn: Red");
    assert_eq!(board.render(), expected);
}

#[test]
fn drop_lands_on_lowest_empty_row() {
    let mut board = Board::new();
    let r = board.drop_chip(Color::Red, 3).unwrap();
    assert_eq!(r.last_move, Move { color: Color::Red, row: 0, col: 3 });
    assert_eq!(r.state, BoardState::Turn(Color::Blue));
    let r = board.drop_chip(Color::Blue, 3).unwrap();
    assert_eq!(r.last_move, Move { color: Color::Blue, row: 1, col: 3 });
    assert_eq!(r.state, BoardState::Turn(Color::Red));
    assert_eq!(board.last_move(), Some(Move { color: Color::Blue, row: 1, col: 3 }));
}

#[test]
fn render_shows_chips_and_status() {
    let mut board = Board::new();
    board.drop_chip(Color::Red, 0).unwrap();
    board.drop_chip(Color::Blue, 6).unwrap();
    let mut expected = String::from("Connect4\n");
    expected.push_str(BORDER);
    for _ in 0..5 {
        expected.push_str("| - - - - - - - |\n");
    }
    expected.push_str("| r - - - - - b |\n");
    expected.push_str(BORDER);
    expected.push_str("Turn: Red");
    assert_eq!(board.render(), expected);
}

#[test]
fn render_names_the_winner() {
    let board = Board::load(".......\n.......\nR......\nrb.....\nrb.....\nrb.....").unwrap();
    assert!(board.render().ends_with("|\n+━━━━━━━━━━━━━━━+\nWinner: Red"));
    assert!(!board.render().contains("R -"));
    assert!(board.render().contains("| r - - - - - - |"));
}

#[test]
fn out_of_range_column_is_refused() {
    let mut board = Board::new();
    assert_eq!(board.drop_chip(Color::Red, 7), Err(PlayError::OutOfRange));
    assert_eq!(board.drop_chip(Color::Red, usize::MAX), Err(PlayError::OutOfRange));
    assert_eq!(board.state(), BoardState::Turn(Color::Red));
}

#[test]
fn red_cannot_drop_twice_in_a_row() {
    let mut board = Board::new();
    assert!(board.drop_chip(Color::Red, 0).is_ok());
    assert_eq!(board.drop_chip(Color::Red, 0), Err(PlayError::WrongColorChip));
}

#[test]
fn wrong_color_changes_nothing() {
    let mut board = Board::new();
    drop_all(&mut board, &[3, 4, 3]);
    let before = board.render();
    let last = board.last_move();
    assert_eq!(board.drop_chip(Color::Red, 2), Err(PlayError::WrongColorChip));
    assert_eq!(board.render(), before);
    assert_eq!(board.last_move(), last);
    assert_eq!(board.state(), BoardState::Turn(Color::Blue));
    // the counters did not move either: the next legal drops still alternate
    let r = board.drop_chip(Color::Blue, 2).unwrap();
    assert_eq!(r.last_move, Move { color: Color::Blue, row: 0, col: 2 });
}

#[test]
fn full_column_overflows() {
    let mut board = Board::new();
    let results = drop_all(&mut board, &[2, 2, 2, 2, 2, 2]);
    assert!(results.iter().all(|r| r.is_ok()));
    let before = board.render();
    assert_eq!(board.drop_chip(Color::Red, 2), Err(PlayError::ChipOverflow));
    assert_eq!(board.render(), before);
    assert_eq!(board.state(), BoardState::Turn(Color::Red));
}

#[test]
fn full_column_overflows_elsewhere_busy() {
    let mut board = Board::new();
    drop_all(&mut board, &[0, 1, 5, 6, 0, 1, 5, 6]);
    drop_all(&mut board, &[4, 4, 4, 4, 4, 4]);
    assert_eq!(board.drop_chip(Color::Red, 4), Err(PlayError::ChipOverflow));
}

#[test]
fn drawn_game_ends_in_stalemate_on_last_chip() {
    let mut board = Board::new();
    let results = drop_all(&mut board, &DRAWN_GAME);
    for (i, r) in results.iter().enumerate() {
        let r = r.as_ref().unwrap();
        if i < 41 {
            assert!(matches!(r.state, BoardState::Turn(_)), "move {} ended the game", i + 1);
        } else {
            assert_eq!(r.state, BoardState::Stalemate);
        }
    }
    assert_eq!(board.state(), BoardState::Stalemate);
    assert!(board.render().ends_with("Stalemate :/"));
    assert_eq!(board.drop_chip(Color::Red, 0), Err(PlayError::Stalemate));
}

#[test]
fn vertical_four_wins_live() {
    let mut board = Board::new();
    let results = drop_all(&mut board, &[0, 1, 0, 1, 0, 1, 0]);
    assert_eq!(results[6], Ok(DropResult {
        last_move: Move { color: Color::Red, row: 3, col: 0 },
        state: BoardState::Won(Color::Red),
    }));
    assert_eq!(board.drop_chip(Color::Blue, 1), Err(PlayError::GameOver(Color::Red)));
}

#[test]
fn horizontal_four_wins_live() {
    let mut board = Board::new();
    let results = drop_all(&mut board, &[0, 0, 1, 1, 2, 2, 3]);
    assert_eq!(results[6].unwrap().state, BoardState::Won(Color::Red));
}

#[test]
fn rising_diagonal_wins_live() {
    let mut board = Board::new();
    // red ends on (0,0) (1,1) (2,2) (3,3)
    let results = drop_all(&mut board, &[0, 1, 1, 2, 2, 3, 2, 3, 3, 6, 3]);
    let last = results.last().unwrap().unwrap();
    assert_eq!(last.last_move, Move { color: Color::Red, row: 3, col: 3 });
    assert_eq!(last.state, BoardState::Won(Color::Red));
}

#[test]
fn falling_diagonal_wins_live() {
    let mut board = Board::new();
    // red ends on (3,0) (2,1) (1,2) (0,3)
    let results = drop_all(&mut board, &[3, 2, 2, 1, 1, 0, 1, 0, 0, 6, 0]);
    let last = results.last().unwrap().unwrap();
    assert_eq!(last.last_move, Move { color: Color::Red, row: 3, col: 0 });
    assert_eq!(last.state, BoardState::Won(Color::Red));
}

#[test]
fn three_in_a_row_does_not_win() {
    let mut board = Board::new();
    let results = drop_all(&mut board, &[0, 0, 1, 1, 2]);
    assert_eq!(results[4].unwrap().state, BoardState::Turn(Color::Blue));
}

#[test]
fn load_marked_blue_without_four_is_reds_turn() {
    let board = Board::load(".......\n.......\n.......\n.......\n.......\nrB.....").unwrap();
    assert_eq!(board.state(), BoardState::Turn(Color::Red));
    assert_eq!(board.last_move(), Some(Move { color: Color::Blue, row: 0, col: 1 }));
}

#[test]
fn load_full_grid_without_four_is_stalemate() {
    let board = Board::load(
        "bbbrbbB\nrrrbrrr\nbbbrbbb\nrrrbrrr\nbbbrbbb\nrrrbrrr",
    )
    .unwrap();
    assert_eq!(board.state(), BoardState::Stalemate);
}

#[test]
fn load_agrees_with_live_play() {
    let mut live = Board::new();
    drop_all(&mut live, &[3, 3, 4, 2, 5]);
    let loaded = Board::load(".......\n.......\n.......\n.......\n...b...\n..brrR.").unwrap();
    assert_eq!(loaded.state(), live.state());
    assert_eq!(loaded.render(), live.render());
    assert_eq!(loaded.last_move(), live.last_move());
    let mut live = Board::new();
    drop_all(&mut live, &[3, 3, 4, 2, 5, 5, 6]);
    let loaded = Board::load(".......\n.......\n.......\n.......\n...b.b.\n..brrrR").unwrap();
    assert_eq!(loaded.state(), BoardState::Won(Color::Red));
    assert_eq!(loaded.state(), live.state());
    assert_eq!(loaded.render(), live.render());
}

#[test]
fn load_rejects_wrong_row_count() {
    assert_eq!(Board::load(".......\n.......\n.......\n.......\nR......").unwrap_err(), LoadError::InvalidSize);
    assert_eq!(Board::load("").unwrap_err(), LoadError::InvalidSize);
    assert_eq!(
        Board::load(".......\n.......\n.......\n.......\n.......\nR......\n").unwrap_err(),
        LoadError::InvalidSize
    );
}

#[test]
fn load_rejects_wrong_row_length() {
    assert_eq!(
        Board::load(".......\n........\n.......\n.......\n.......\nR......").unwrap_err(),
        LoadError::InvalidSize
    );
    assert_eq!(
        Board::load(".......\n.......\n.......\n.......\n.......\nR.....").unwrap_err(),
        LoadError::InvalidSize
    );
}

#[test]
fn load_rejects_unknown_symbol() {
    assert_eq!(
        Board::load(".......\n.......\n.......\n.......\n...x...\nR......").unwrap_err(),
        LoadError::InvalidText
    );
}

#[test]
fn load_rejects_second_mark() {
    assert_eq!(
        Board::load(".......\n.......\n.......\n.......\n.......\nRB.....").unwrap_err(),
        LoadError::ExtraLastMove
    );
}

#[test]
fn load_reports_first_error_in_reading_order() {
    // the second mark comes before the bad symbol
    assert_eq!(
        Board::load(".......\n.......\n.......\n.......\nR....B.\n..x....").unwrap_err(),
        LoadError::ExtraLastMove
    );
    // the bad symbol comes before the short line
    assert_eq!(
        Board::load("..x....\n......\n.......\n.......\n.......\nR......").unwrap_err(),
        LoadError::InvalidText
    );
}

#[test]
fn load_rejects_missing_mark() {
    assert_eq!(
        Board::load(".......\n.......\n.......\n.......\n.......\nrb.....").unwrap_err(),
        LoadError::NoLastMove
    );
}

#[test]
fn load_rejects_uneven_counts() {
    assert_eq!(
        Board::load(".......\n.......\n.......\n.......\n.......\nrrR....").unwrap_err(),
        LoadError::InvalidMoves
    );
    // uneven counts are reported before a missing mark
    assert_eq!(
        Board::load(".......\n.......\n.......\n.......\n.......\nbbb....").unwrap_err(),
        LoadError::InvalidMoves
    );
}

#[test]
fn messages_carry_the_board() {
    let mut board = Board::new();
    match Message::board(&board) {
        Message::Board { turn, board: text } => {
            assert_eq!(turn, Color::Red);
            assert_eq!(text, board.render());
        }
        other => panic!("unexpected {:?}", other),
    }
    let r = board.drop_chip(Color::Red, 1).unwrap();
    assert_eq!(
        Message::moved(&board, r.last_move, Color::Red),
        Message::Moved { last_mover: Color::Red, last_move: r.last_move, board: board.render() }
    );
}

#[test]
fn terminal_messages_carry_the_last_move() {
    let won = Board::load(".......\n.......\nR......\nrb.....\nrb.....\nrb.....").unwrap();
    assert_eq!(
        Message::won(&won, Color::Red),
        Message::Won {
            winner: Color::Red,
            last_move: Move { color: Color::Red, row: 3, col: 0 },
            board: won.render(),
        }
    );
    let drawn = Board::load("bbbrbbB\nrrrbrrr\nbbbrbbb\nrrrbrrr\nbbbrbbb\nrrrbrrr").unwrap();
    assert_eq!(
        Message::stalemate(&drawn),
        Message::Stalemate {
            last_move: Move { color: Color::Blue, row: 5, col: 6 },
            board: drawn.render(),
        }
    );
}

#[test]
fn toggle_and_default_color() {
    assert_eq!(Color::Red.toggle(), Color::Blue);
    assert_eq!(Color::Blue.toggle(), Color::Red);
    assert_eq!(Color::default(), Color::Red);
}
