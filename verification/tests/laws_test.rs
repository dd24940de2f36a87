//! The library's laws, held to concrete positions and games.

use caissa::classics::OPERA_GAME_PGN;
use caissa::notation::{a1, d2, e1, e2, e3, e8, g1, h8, Terminus};
use caissa::study::Study;
use caissa::{
    import, to_san, Action, Color, Game, Piece, Position, Rejected, Role, San, Square, Wing,
};

fn game_of(moves: &[&str]) -> Game {
    moves
        .iter()
        .try_fold(Game::new(), |game, text| game.apply(*text))
        .unwrap()
}

fn all_squares() -> Vec<Square> {
    let mut squares = Vec::new();
    for rank in 0..8 {
        for file in 0..8 {
            squares.push(Square::new(file, rank).unwrap());
        }
    }
    squares
}

/// Castling both ways, an en-passant capture, a promotion, and checks.
fn eventful_game() -> Game {
    game_of(&[
        "e2e4", "d7d5", "e4e5", "f7f5", "e5f6", "g8h6", "f6g7", "b8c6", "g1f3", "c8e6", "f1e2",
        "d8d6", "e1g1", "e8c8", "g7h8q", "d6h2",
    ])
}

fn sample_positions() -> Vec<Position> {
    let eventful = eventful_game();
    vec![
        Position::default(),
        eventful[4],
        eventful[12],
        eventful[14],
        Position::from_fen("r3k2r/pPpp1ppp/8/3Pp3/8/8/P1PP1PPP/R3K2R w KQkq e6 0 1").unwrap(),
    ]
}

#[test]
fn every_legal_action_spells_san_that_resolves_back_to_it() {
    for position in sample_positions() {
        for action in position.legal_actions() {
            let san = to_san(position, action).unwrap();
            let description = San::parse(&san).unwrap();
            assert_eq!(description.resolve(position), Ok(action), "{}", san);
            let game = Game::from_position(position).apply(san.as_str()).unwrap();
            assert_eq!(game.position(), position.play(action).unwrap());
        }
    }
}

#[test]
fn a_push_onto_the_en_passant_square_is_the_one_spelling_san_shares() {
    let position = Position::from_fen("4k3/8/8/8/8/8/3PP3/4K3 w - e3 0 1").unwrap();
    let push = Action::Move { from: e2, to: e3 };
    let capture = Action::Move { from: d2, to: e3 };
    assert_eq!(to_san(position, push), Ok("e3".to_string()));
    assert_eq!(to_san(position, capture), Ok("dxe3".to_string()));
    assert!(matches!(
        Game::from_position(position).apply("e3"),
        Err(Rejected::AmbiguousSan { .. })
    ));
    assert_eq!(San::parse("dxe3").unwrap().resolve(position), Ok(capture));
}

#[test]
fn a_promotion_spelled_as_a_castle_is_refused() {
    let position = Position::from_fen("4k3/8/8/8/8/8/8/4K2R w K - 0 1").unwrap();
    let odd = Action::Promote { from: e1, to: g1, into: Role::Queen };
    assert_eq!(
        position.play(odd),
        Err(Rejected::NotAPromotion { from: e1, to: g1 })
    );
    assert!(Game::from_position(position).apply("O-O").is_ok());
}

#[test]
fn a_promotion_from_the_italian_kings_square_is_no_castle() {
    let position = caissa::classics::italian();
    let odd = Action::Promote { from: e1, to: g1, into: Role::Queen };
    assert_eq!(
        position.play(odd),
        Err(Rejected::NotAPromotion { from: e1, to: g1 })
    );
    assert!(position.play(Action::Move { from: e1, to: g1 }).is_ok());
}

#[test]
fn fen_written_reads_back_as_the_position() {
    let composed = Position::empty(Color::Black)
        .with(a1, Piece::white(Role::Rook))
        .with(h8, Piece::black(Role::Queen))
        .with(e1, Piece::white(Role::King))
        .with(e8, Piece::black(Role::King));
    let mut positions = sample_positions();
    positions.push(composed);
    positions.push(Position::from_fen("rn2k2r/8/8/8/3pP3/8/8/R3K3 b Qk e3 12 40").unwrap());
    for position in positions {
        assert_eq!(Position::from_fen(&position.fen()), Ok(position));
    }
}

#[test]
fn an_eventful_score_reads_back_ply_for_ply() {
    let game = eventful_game();
    let score = game.score();
    assert!(score.contains("O-O-O"));
    assert!(score.contains("=Q"));
    let again = import(&score).unwrap();
    assert_eq!(again.plies(), game.plies());
    for ply in 0..=game.plies() {
        assert_eq!(again[ply], game[ply]);
    }
    assert_eq!(again.log(), game.log());
}

#[test]
fn a_claimed_draw_reads_back_as_the_same_positions() {
    let game = game_of(&["g1f3", "g8f6", "f3g1", "f6g8", "g1f3", "g8f6", "f3g1", "f6g8"]);
    let drawn = game.claim_draw().unwrap();
    let again = import(&drawn.score()).unwrap();
    assert_eq!(again[Terminus], drawn[Terminus]);
    assert_eq!(again.plies(), drawn.plies());
}

#[test]
fn the_legal_actions_are_exactly_what_the_reducer_accepts() {
    let roles = [Role::Queen, Role::Rook, Role::Bishop, Role::Knight];
    let positions = sample_positions();
    for position in [positions[0], positions[4]] {
        let listed = position.legal_actions();
        for (i, a) in listed.iter().enumerate() {
            assert!(position.play(*a).is_ok());
            assert!(!listed[i + 1..].contains(a));
        }
        for from in all_squares() {
            for to in all_squares() {
                let mut tries = vec![Action::Move { from, to }];
                for into in roles {
                    tries.push(Action::Promote { from, to, into });
                }
                for action in tries {
                    if position.play(action).is_ok() {
                        assert!(listed.contains(&action));
                    }
                }
            }
        }
    }
}

#[test]
fn no_accepted_move_leaves_the_movers_king_attacked() {
    for position in sample_positions() {
        for action in position.legal_actions() {
            let next = position.play(action).unwrap();
            assert!(!next.in_check(position.turn()));
        }
    }
}

#[test]
fn the_opera_game_replays_from_its_log() {
    let game = import(OPERA_GAME_PGN).unwrap();
    let end = Game::replay(Position::default(), game.log().to_vec()).unwrap();
    assert_eq!(end, game[Terminus]);
    assert_eq!(game.apply("a8a7").is_err(), true);
    assert_eq!(game.undo().apply(game.log()[game.plies() - 1]).unwrap(), game);
}

#[test]
fn castling_rights_never_return() {
    let game = game_of(&["h2h4", "a7a5", "h1h3", "a8a6", "h3h1", "a6a8"]);
    let end = game[Terminus];
    assert!(!end.may_castle(Color::White, Wing::King));
    assert!(end.may_castle(Color::White, Wing::Queen));
    assert!(!end.may_castle(Color::Black, Wing::Queen));
    assert!(end.may_castle(Color::Black, Wing::King));
}

#[test]
fn games_agreeing_through_a_ply_share_its_positions() {
    let knight = game_of(&["e4", "e5", "Nf3", "Nc6"]);
    let bishop = game_of(&["e4", "e5", "Bc4", "Nc6"]);
    for ply in 0..=2 {
        assert_eq!(knight[ply], bishop[ply]);
    }
    assert_ne!(knight[3], bishop[3]);
}

#[test]
fn grafting_keeps_every_line_and_adds_the_new_one() {
    let ruy = game_of(&["e4", "e5", "Nf3", "Nc6", "Bb5"]);
    let italian = game_of(&["e4", "e5", "Nf3", "Nc6", "Bc4"]);
    let study = Study::new().with(ruy.clone()).with(italian);
    assert_eq!(study.lines().len(), 2);
    assert_eq!(study.mainline(), ruy);
    let again = study.clone().with(game_of(&["e4", "e5"]));
    assert_eq!(again.lines(), study.lines());
    let longer = study.with(game_of(&["e4", "e5", "Nf3", "Nc6", "Bc4", "Bc5"]));
    assert_eq!(longer.lines().len(), 2);
    assert_eq!(longer.mainline(), ruy);
    assert_eq!(longer.lines()[1].plies(), 6);
}

#[test]
fn a_resolved_san_is_always_playable() {
    for position in sample_positions() {
        for text in ["e4", "Nf3", "exf6", "gxh8=Q", "Qxh2+", "Bd3", "d6", "Nc3", "bxa8=N"] {
            if let Some(description) = San::parse(text) {
                if let Ok(action) = description.resolve(position) {
                    assert!(position.play(action).is_ok(), "{}", text);
                }
            }
        }
    }
}

#[test]
fn every_prefix_of_a_log_replays_to_its_ply() {
    let game = eventful_game();
    for n in 0..=game.plies() {
        assert_eq!(Game::replay(game[0], game.log()[..n].to_vec()), Ok(game[n]));
    }
}

#[test]
fn exported_movetext_fits_eighty_columns() {
    let game = import(OPERA_GAME_PGN).unwrap();
    let exported = caissa::pgn::export(&game, &caissa::pgn::Tags::new()).unwrap();
    let movetext = exported.split("\n\n").nth(1).unwrap();
    assert!(movetext.lines().count() >= 2);
    for line in movetext.lines() {
        assert!(line.len() <= 80, "{}", line);
    }
}

#[test]
fn grafting_twice_is_grafting_once_and_a_shorter_line_keeps_the_mainline() {
    let main = game_of(&["e2e4", "e7e5", "g1f3", "b8c6"]);
    let side = game_of(&["e2e4", "c7c5"]);
    let once = Study::from(main.clone()).with(side.clone());
    let twice = once.clone().with(side);
    assert_eq!(&twice, &once);
    assert_eq!(twice.lines().len(), 2);
    let shorter = once.clone().with(game_of(&["e2e4", "e7e5"]));
    assert_eq!(shorter.mainline().log(), main.log());
    assert_eq!(&shorter, &once);
}
