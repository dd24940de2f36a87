use caissa::classics::fools_mate;
use caissa::notation::{a1, a2, a8, b8, c7, e1, e2, e8, Terminus};
use caissa::{Color, Ending, Game, Mode, Piece, Position, Rejected, Role};

/// One rule covers pins, moving into check, and ignoring check: the
/// resulting position may not leave your king attacked.

#[test]
fn moving_into_check_is_rejected() {
    let board = Position::empty(Color::White)
        .with(e1, Piece::white(Role::King))
        .with(e8, Piece::black(Role::Rook));

    let result = board.play("e1e2");

    assert_eq!((result).as_ref().err(), Some(&Rejected::IntoCheck { king: e2 }));
}

#[test]
fn stepping_out_of_the_line_of_fire_is_fine() {
    let board = Position::empty(Color::White)
        .with(e1, Piece::white(Role::King))
        .with(e8, Piece::black(Role::Rook));

    assert_eq!(board.in_check(Color::White), true);
    assert!((board.play("e1d1")).is_ok());
}

#[test]
fn a_pinned_piece_cannot_move() {
    let board = Position::empty(Color::White)
        .with(e1, Piece::white(Role::King))
        .with(e2, Piece::white(Role::Rook))
        .with(e8, Piece::black(Role::Rook));

    let result = board.play("e2a2");

    assert_eq!((result).as_ref().err(), Some(&Rejected::IntoCheck { king: e1 }));
}

#[test]
fn a_pinned_piece_can_slide_along_the_pin() {
    let board = Position::empty(Color::White)
        .with(e1, Piece::white(Role::King))
        .with(e2, Piece::white(Role::Rook))
        .with(e8, Piece::black(Role::Rook));

    assert!((board.play("e2e8")).is_ok());
}

#[test]
fn ignoring_check_is_rejected() {
    let board = Position::empty(Color::White)
        .with(e1, Piece::white(Role::King))
        .with(a1, Piece::white(Role::Rook))
        .with(e8, Piece::black(Role::Rook));

    let result = board.play("a1b1");

    assert_eq!((result).as_ref().err(), Some(&Rejected::IntoCheck { king: e1 }));
}

/// Mode is derived from the board, never stored: mate, stalemate, or
/// still playing.

#[test]
fn fools_mate_has_been_played() {
    let game = fools_mate();

    assert_eq!(game.mode(), Mode::Played(Ending::Checkmate { winner: Color::Black }));
    assert_eq!(game.mode(), game[Terminus].mode());
}

#[test]
fn check_with_an_escape_is_still_playing() {
    let board = Position::empty(Color::White)
        .with(e1, Piece::white(Role::King))
        .with(e8, Piece::black(Role::Rook));

    assert_eq!(board.in_check(Color::White), true);
    assert_eq!(board.mode(), Mode::Playing);
}

#[test]
fn no_moves_without_check_is_stalemate() {
    let board = Position::empty(Color::Black)
        .with(a8, Piece::black(Role::King))
        .with(c7, Piece::white(Role::Queen));

    assert_eq!(board.in_check(Color::Black), false);
    assert_eq!(board.mode(), Mode::Played(Ending::Stalemate));
}

#[test]
fn a_game_born_from_a_terminal_position_is_already_played() {
    let board = Position::empty(Color::Black)
        .with(a8, Piece::black(Role::King))
        .with(c7, Piece::white(Role::Queen));

    let game = Game::from_position(board);

    assert_eq!(game.mode(), Mode::Played(Ending::Stalemate));
    assert_eq!((game.apply("a8a7")).as_ref().err(), Some(&Rejected::GameOver { ending: Ending::Stalemate }));
}

/// There is no position after the end of a game — and undo brings
/// the game back to life without recomputation.

#[test]
fn a_played_game_rejects_every_action_without_move_checking() {
    let game = fools_mate();

    let result = game.apply("a2a3");

    assert_eq!((result).as_ref().err(), Some(&Rejected::GameOver {
            ending: Ending::Checkmate { winner: Color::Black }
        }));
}

#[test]
fn the_position_itself_still_rejects_on_the_merits() {
    // A position is memoryless — no mode, no GameOver. The mated side's
    // actions all fail individually instead.
    let mated = fools_mate()[Terminus];

    let result = mated.play("a2a3");

    assert_eq!((result).as_ref().err(), Some(&Rejected::IntoCheck { king: e1 }));
}

#[test]
fn undo_resumes_playing() {
    let game = fools_mate();

    let undone = game.undo();

    assert_eq!(undone.mode(), Mode::Playing);
    assert!((undone.apply("d8h4")).is_ok());
}

/// Things a position can tell you without storing them.

#[test]
fn a_position_with_one_legal_action_forces_it() {
    let board = Position::empty(Color::White)
        .with(a1, Piece::white(Role::King))
        .with(b8, Piece::black(Role::Rook));

    // b1 and b2 are covered by the rook; only a1a2 remains.
    assert_eq!(board.forced(), Some(caissa::Action::Move { from: a1, to: a2 }));
    assert!((Position::default().forced()).is_none());
}

#[test]
fn legal_actions_shrink_under_check() {
    let board = Position::empty(Color::White)
        .with(e1, Piece::white(Role::King))
        .with(e8, Piece::black(Role::Rook));

    // Every legal action must be a king move off the e-file.
    let escapes: Vec<_> = board.legal_actions();

    assert_eq!(escapes.len(), 4); // d1, d2, f1, f2
    for action in escapes {
        assert!((board.play(action)).is_ok());
    }
}
