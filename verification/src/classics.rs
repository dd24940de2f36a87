//! The classics: famous games and standard openings as ready-made values —
//! "a finished game", "a position where castling is legal", or "the most
//! famous attack ever played", one call away.
//!
//! Each is written down as moves and folded by the reducer, so each holds
//! exactly what the rules make of those moves. Should the rules ever
//! refuse one, the fixture falls back to the position it started from.

use vstd::prelude::*;

use crate::action::spec_text_action;
use crate::game::{new_game_spec, Game, GameModel};
use crate::pgn::{fold_sans, import, import_spec};
use crate::position::{play_spec, start_model, Position};
use crate::reduce::Rejection;
use crate::rules::PositionModel;

verus! {

/// Morphy vs. Duke Karl / Count Isouard, Paris Opera 1858. Mate in 17 —
/// the most-taught game in chess.
pub const OPERA_GAME_PGN: &'static str = "
[Event \"Paris Opera\"]
[Site \"Paris FRA\"]
[Date \"1858.11.02\"]
[White \"Paul Morphy\"]
[Black \"Duke Karl / Count Isouard\"]
[Result \"1-0\"]

1. e4 e5 2. Nf3 d6 3. d4 Bg4 4. dxe5 Bxf3 5. Qxf3 dxe5 6. Bc4 Nf6
7. Qb3 Qe7 8. Nc3 c6 9. Bg5 b5 10. Nxb5 cxb5 11. Bxb5+ Nbd7 12. O-O-O Rd8
13. Rxd7 Rxd7 14. Rd1 Qe6 15. Bxd7+ Nxd7 16. Qb8+ Nxb8 17. Rd8# 1-0
";

/// Anderssen vs. Kieseritzky, London 1851 — both rooks and the queen
/// sacrificed, mate with three minor pieces.
pub const IMMORTAL_GAME_PGN: &'static str = "
[Event \"London\"]
[Site \"London ENG\"]
[Date \"1851.06.21\"]
[White \"Adolf Anderssen\"]
[Black \"Lionel Kieseritzky\"]
[Result \"1-0\"]

1. e4 e5 2. f4 exf4 3. Bc4 Qh4+ 4. Kf1 b5 5. Bxb5 Nf6 6. Nf3 Qh6
7. d3 Nh5 8. Nh4 Qg5 9. Nf5 c6 10. g4 Nf6 11. Rg1 cxb5 12. h4 Qg6
13. h5 Qg5 14. Qf3 Ng8 15. Bxf4 Qf6 16. Nc3 Bc5 17. Nd5 Qxb2 18. Bd6 Bxg1
19. e5 Qxa1+ 20. Ke2 Na6 21. Nxg7+ Kd8 22. Qf6+ Nxf6 23. Be7# 1-0
";

/// What a fixture holds: the game the text makes, or — should the rules
/// refuse it — a game not yet begun.
pub open spec fn fixture(made: Result<GameModel, Rejection>) -> GameModel {
    match made {
        Ok(game) => game,
        Err(_) => new_game_spec(start_model()),
    }
}

/// A game imported from `text`, or a new game should it not import.
fn imported(text: &str) -> (game: Game)
    ensures
        game@ == fixture(import_spec(text@)),
{
    match import(text) {
        Ok(game) => game,
        Err(_) => Game::new(),
    }
}

/// The Opera Game, already played.
pub fn opera_game() -> (game: Game)
    ensures
        game@ == fixture(import_spec(OPERA_GAME_PGN@)),
{
    imported(OPERA_GAME_PGN)
}

/// The Immortal Game, already played.
pub fn immortal_game() -> (game: Game)
    ensures
        game@ == fixture(import_spec(IMMORTAL_GAME_PGN@)),
{
    imported(IMMORTAL_GAME_PGN)
}

/// SAN moves folded over a new game, or a new game should one be refused.
fn played(sans: &[&str]) -> (game: Game)
    ensures
        game@ == fixture(fold_sans(new_game_spec(start_model()), sans@.map_values(|s: &str| s@))),
{
    let ghost texts = sans@.map_values(|s: &str| s@);
    let ghost fresh = new_game_spec(start_model());
    let mut game = Game::new();
    let mut i: usize = 0;
    assert(texts.take(0) =~= Seq::<Seq<char>>::empty());
    while i < sans.len()
        invariant
            i <= sans@.len(),
            texts == sans@.map_values(|s: &str| s@),
            fresh == new_game_spec(start_model()),
            fold_sans(fresh, texts.take(i as int)) == Ok::<GameModel, Rejection>(game@),
        decreases sans.len() - i,
    {
        assert(texts.take(i + 1).drop_last() =~= texts.take(i as int));
        assert(texts.take(i + 1).last() == sans@[i as int]@);
        match game.apply(sans[i]) {
            Ok(next) => {
                game = next;
            },
            Err(_) => {
                proof {
                    lemma_fold_fails(fresh, texts, i as int + 1);
                }
                return Game::new();
            },
        }
        i = i + 1;
    }
    assert(texts.take(sans@.len() as int) =~= texts);
    game
}

/// A fold that fails on a prefix fails as a whole.
proof fn lemma_fold_fails(start: GameModel, sans: Seq<Seq<char>>, n: int)
    requires
        0 <= n <= sans.len(),
        fold_sans(start, sans.take(n)) is Err,
    ensures
        fold_sans(start, sans) is Err,
    decreases sans.len() - n,
{
    if n < sans.len() {
        assert(sans.take(n + 1).drop_last() =~= sans.take(n));
        lemma_fold_fails(start, sans, n + 1);
    } else {
        assert(sans.take(n) =~= sans);
    }
}

/// The fastest possible mate: 1. f3 e5 2. g4 Qh4#. Black wins; White
/// regrets. The canonical finished-game fixture.
pub fn fools_mate() -> (game: Game)
    ensures
        game@ == fixture(fold_sans(new_game_spec(start_model()), seq!["f3"@, "e5"@, "g4"@, "Qh4#"@])),
{
    let sans: [&str; 4] = ["f3", "e5", "g4", "Qh4#"];
    let game = played(&sans);
    assert(sans@.map_values(|s: &str| s@) =~= seq!["f3"@, "e5"@, "g4"@, "Qh4#"@]);
    game
}

/// The Ruy Lopez after 3. Bb5 — five plies of the oldest opening in the
/// book, Black to move.
pub fn ruy_lopez() -> (game: Game)
    ensures
        game@ == fixture(
            fold_sans(new_game_spec(start_model()), seq!["e4"@, "e5"@, "Nf3"@, "Nc6"@, "Bb5"@]),
        ),
{
    let sans: [&str; 5] = ["e4", "e5", "Nf3", "Nc6", "Bb5"];
    let game = played(&sans);
    assert(sans@.map_values(|s: &str| s@) =~= seq!["e4"@, "e5"@, "Nf3"@, "Nc6"@, "Bb5"@]);
    game
}

/// SAN moves folded over a position with `Position::play`.
pub open spec fn play_all(start: PositionModel, sans: Seq<Seq<char>>) -> Result<PositionModel, Rejection>
    decreases sans.len(),
{
    if sans.len() == 0 {
        Ok(start)
    } else {
        match play_all(start, sans.drop_last()) {
            Err(e) => Err(e),
            Ok(before) => play_spec(before, spec_text_action(sans.last(), before)),
        }
    }
}

proof fn lemma_play_fails(start: PositionModel, sans: Seq<Seq<char>>, n: int)
    requires
        0 <= n <= sans.len(),
        play_all(start, sans.take(n)) is Err,
    ensures
        play_all(start, sans) is Err,
    decreases sans.len() - n,
{
    if n < sans.len() {
        assert(sans.take(n + 1).drop_last() =~= sans.take(n));
        lemma_play_fails(start, sans, n + 1);
    } else {
        assert(sans.take(n) =~= sans);
    }
}

/// The Italian Game after 3... Bc5 — both kingsides clear, castling legal
/// for either side. The canonical may-castle fixture.
pub fn italian() -> (position: Position)
    ensures
        position@ == (match play_all(
            start_model(),
            seq!["e4"@, "e5"@, "Nf3"@, "Nf6"@, "Bc4"@, "Bc5"@],
        ) {
            Ok(p) => p,
            Err(_) => start_model(),
        }),
{
    let sans: [&str; 6] = ["e4", "e5", "Nf3", "Nf6", "Bc4", "Bc5"];
    let ghost texts = sans@.map_values(|s: &str| s@);
    assert(texts =~= seq!["e4"@, "e5"@, "Nf3"@, "Nf6"@, "Bc4"@, "Bc5"@]);
    let mut position = Position::default();
    let mut i: usize = 0;
    assert(texts.take(0) =~= Seq::<Seq<char>>::empty());
    while i < 6
        invariant
            i <= 6,
            sans@.len() == 6,
            texts == sans@.map_values(|s: &str| s@),
            texts == seq!["e4"@, "e5"@, "Nf3"@, "Nf6"@, "Bc4"@, "Bc5"@],
            play_all(start_model(), texts.take(i as int)) == Ok::<PositionModel, Rejection>(position@),
        decreases 6 - i,
    {
        assert(texts.take(i + 1).drop_last() =~= texts.take(i as int));
        assert(texts.take(i + 1).last() == sans@[i as int]@);
        match position.play(sans[i]) {
            Ok(next) => {
                position = next;
            },
            Err(_) => {
                proof {
                    lemma_play_fails(start_model(), texts, i as int + 1);
                }
                return Position::default();
            },
        }
        i = i + 1;
    }
    assert(texts.take(6) =~= texts);
    position
}

} // verus!
