use caissa::classics::italian;
use caissa::notation::{a1, c1, c8, d1, d5, d6, e1, e2, e3, e5, e8, f1, f8, g1, h1};
use caissa::{Color, Piece, Position, Rejected, Role, Wing};

/// The king's two-square move, interpreted: both pieces land where
/// they should, and the rights are spent.

#[test]
fn castling_is_the_kings_two_square_move() {
    let castled = italian().play("e1g1").unwrap();

    assert_eq!(castled.at(g1), Some(Piece::white(Role::King)));
    assert_eq!(castled.at(f1), Some(Piece::white(Role::Rook)));
    assert!((castled.at(e1)).is_none());
    assert!((castled.at(h1)).is_none());
}

#[test]
fn castling_spends_both_rights() {
    let castled = italian().play("e1g1").unwrap();

    assert_eq!(castled.may_castle(Color::White, Wing::King), false);
    assert_eq!(castled.may_castle(Color::White, Wing::Queen), false);
    assert_eq!(castled.may_castle(Color::Black, Wing::King), true);
}

#[test]
fn queenside_castling_works_too() {
    let board = Position::empty(Color::White)
        .with(e1, Piece::white(Role::King))
        .with(a1, Piece::white(Role::Rook));

    let castled = board.play("e1c1").unwrap();

    assert_eq!(castled.at(c1), Some(Piece::white(Role::King)));
    assert_eq!(castled.at(d1), Some(Piece::white(Role::Rook)));
    assert!((castled.at(a1)).is_none());
}

/// Rights only ever shrink: kings forfeit both wings, rooks only
/// their own — and nothing restores them.

#[test]
fn a_wandering_king_forfeits_castling_forever() {
    let board = ["e1e2", "a7a6", "e2e1", "a6a5"]
        .into_iter()
        .try_fold(italian(), Position::play)
        .unwrap();

    let result = board.play("e1g1");

    assert_eq!((result).as_ref().err(), Some(&Rejected::CastlingForfeited { wing: Wing::King }));
}

#[test]
fn a_moved_rook_forfeits_only_its_own_wing() {
    let board = Position::empty(Color::White)
        .with(e1, Piece::white(Role::King))
        .with(a1, Piece::white(Role::Rook))
        .with(h1, Piece::white(Role::Rook))
        .with(e8, Piece::black(Role::King));

    let round_trip = ["h1g1", "e8d8", "g1h1", "d8e8"]
        .into_iter()
        .try_fold(board, Position::play)
        .unwrap();

    assert_eq!(round_trip.may_castle(Color::White, Wing::King), false);
    assert_eq!(round_trip.may_castle(Color::White, Wing::Queen), true);
    assert_eq!((round_trip.play("e1g1")).as_ref().err(), Some(&Rejected::CastlingForfeited { wing: Wing::King }));
    assert!((round_trip.play("e1c1")).is_ok());
}

/// Castling refused: out of, through, or into check — or simply
/// blocked.

#[test]
fn castling_through_check_is_rejected() {
    let board = Position::empty(Color::White)
        .with(e1, Piece::white(Role::King))
        .with(h1, Piece::white(Role::Rook))
        .with(f8, Piece::black(Role::Rook));

    let result = board.play("e1g1");

    assert_eq!((result).as_ref().err(), Some(&Rejected::IntoCheck { king: f1 }));
}

#[test]
fn castling_out_of_check_is_rejected() {
    let board = Position::empty(Color::White)
        .with(e1, Piece::white(Role::King))
        .with(h1, Piece::white(Role::Rook))
        .with(e8, Piece::black(Role::Rook));

    let result = board.play("e1g1");

    assert_eq!((result).as_ref().err(), Some(&Rejected::IntoCheck { king: e1 }));
}

#[test]
fn castling_with_pieces_between_cannot_reach() {
    let result = Position::default().play("e1g1");

    assert_eq!((result).as_ref().err(), Some(&Rejected::CannotReach { from: e1, to: g1 }));
}

/// The position's other memory: a one-ply window onto the square the
/// double push skipped.

#[test]
fn en_passant_takes_the_pawn_that_passed() {
    let board = ["e2e4", "a7a6", "e4e5", "d7d5"]
        .into_iter()
        .try_fold(Position::default(), Position::play)
        .unwrap();

    let captured = board.play("e5d6").unwrap();

    assert_eq!(captured.at(d6), Some(Piece::white(Role::Pawn)));
    assert!((captured.at(d5)).is_none());
}

#[test]
fn the_en_passant_window_closes_after_one_ply() {
    let board = ["e2e4", "a7a6", "e4e5", "d7d5", "h2h3", "a6a5"]
        .into_iter()
        .try_fold(Position::default(), Position::play)
        .unwrap();

    let result = board.play("e5d6");

    assert_eq!((result).as_ref().err(), Some(&Rejected::CannotReach { from: e5, to: d6 }));
}

#[test]
fn a_double_push_records_the_skipped_square() {
    let opened = Position::default().play("e2e4").unwrap();
    assert_eq!(opened.passant(), Some(e3));

    let declined = opened.play("a7a6").unwrap();
    assert!((declined.passant()).is_none());
}

#[test]
fn a_pawn_covering_the_kings_path_forbids_castling() {
    let position = Position::empty(Color::White)
        .with(e1, Piece::white(Role::King))
        .with(h1, Piece::white(Role::Rook))
        .with(e2, Piece::black(Role::Pawn));
    assert_eq!(position.play("e1g1"), Err(Rejected::IntoCheck { king: f1 }));
}

#[test]
fn a_pawn_ahead_of_the_king_does_not_check_it() {
    let position = Position::empty(Color::White)
        .with(e1, Piece::white(Role::King))
        .with(e2, Piece::black(Role::Pawn));
    assert!(!position.in_check(Color::White));
}

#[test]
fn castling_by_a_second_king_leaves_an_unattacked_first_king_unattacked() {
    let position = Position::empty(Color::White)
        .with(c1, Piece::white(Role::King))
        .with(e1, Piece::white(Role::King))
        .with(h1, Piece::white(Role::Rook));
    let castled = position.play("e1g1").unwrap();
    assert!(!castled.in_check(Color::White));
}

#[test]
fn castling_checks_only_the_castling_kings_squares() {
    let position = Position::empty(Color::White)
        .with(c1, Piece::white(Role::King))
        .with(e1, Piece::white(Role::King))
        .with(h1, Piece::white(Role::Rook))
        .with(c8, Piece::black(Role::Rook));
    assert!(position.in_check(Color::White));
    let castled = position.play("e1g1").unwrap();
    assert!(castled.in_check(Color::White));
}
