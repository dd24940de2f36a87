//! Emission is resolution's inverse: a game written out as a score must
//! fold back to the same game.

use caissa::classics::OPERA_GAME_PGN;
use caissa::notation::{a1, a3, a5, d6, e1, e5, g8, h1, h7, Terminus};
use caissa::{Action, Color, Game, Piece, Position, Role, import, to_san};

/// The score as a publication prints it: numbers, suffixes, the
/// result the board attests, figurines on request.

#[test]
fn a_score_reads_like_a_newspaper_column() {
    let game = ["f3", "e5", "g4", "Qh4#"]
        .into_iter()
        .try_fold(Game::new(), |game, san| game.apply(san))
        .unwrap();

    assert_eq!(game.score().as_str(), "1. f3 e5 2. g4 Qh4# 0-1");
    assert_eq!(game.score().as_str(), "1. f3 e5 2. g4 Qh4# 0-1");
}

#[test]
fn an_unfinished_game_scores_with_a_star() {
    let game = Game::new().apply("e4").unwrap();

    assert_eq!(game.score().as_str(), "1. e4 *");
}

#[test]
fn figurines_wear_the_movers_glyph() {
    let game = import(OPERA_GAME_PGN).unwrap();

    let figurines = game.figurines();
    assert_eq!(figurines.ends_with("17. ♖d8# 1-0"), true);
    assert_eq!(figurines.contains("3. d4 ♝g4"), true); // black bishop, black glyph
}

/// Emission is resolution's inverse: import(game.score()) must
/// reproduce the game.

#[test]
fn the_opera_game_round_trips() {
    let game = import(OPERA_GAME_PGN).unwrap();

    let score = game.score();
    assert_eq!(score.contains("11. Bxb5+ Nbd7 12. O-O-O Rd8"), true);
    assert_eq!(score.ends_with("17. Rd8# 1-0"), true);

    let again = import(&score).unwrap();
    assert_eq!(again.plies(), game.plies());
    assert_eq!(again[Terminus], game[Terminus]);
}

/// Minimal disambiguation and the tricky spellings: en passant,
/// capturing underpromotion.

#[test]
fn emission_disambiguates_minimally() {
    let two_files = Position::empty(Color::White)
        .with(a1, Piece::white(Role::Rook))
        .with(h1, Piece::white(Role::Rook));
    assert_eq!((to_san(two_files, Action::Move { from: a1, to: e1 })).as_ref().ok(), Some(&"Rae1".to_string()));

    let two_ranks = Position::empty(Color::White)
        .with(a1, Piece::white(Role::Rook))
        .with(a5, Piece::white(Role::Rook));
    assert_eq!((to_san(two_ranks, Action::Move { from: a1, to: a3 })).as_ref().ok(), Some(&"R1a3".to_string()));

    let alone = Position::empty(Color::White).with(a1, Piece::white(Role::Rook));
    assert_eq!((to_san(alone, Action::Move { from: a1, to: e1 })).as_ref().ok(), Some(&"Re1".to_string()));
}

#[test]
fn en_passant_writes_as_a_plain_pawn_capture() {
    let board = ["e2e4", "a7a6", "e4e5", "d7d5"]
        .into_iter()
        .try_fold(Position::default(), Position::play)
        .unwrap();

    assert_eq!((to_san(board, Action::Move { from: e5, to: d6 })).as_ref().ok(), Some(&"exd6".to_string()));
}

#[test]
fn a_capturing_underpromotion_writes_itself() {
    let board = Position::empty(Color::White)
        .with(h7, Piece::white(Role::Pawn))
        .with(
            g8,
            Piece {
                color: Color::Black,
                role: Role::Rook,
            },
        );

    assert_eq!((to_san(
            board,
            Action::Promote {
                from: h7,
                to: g8,
                into: Role::Knight
            }
        )).as_ref().ok(), Some(&"hxg8=N".to_string()));
}
