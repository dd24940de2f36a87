use caissa::play::{Random, between};
use caissa::{Game, Mode, Position};

/// A self-play game is a reproducible value: the seed is the parameter.

#[test]
fn the_same_seeds_play_the_same_game() {
    let first = between(&Random::seeded(1), &Random::seeded(2), Position::default());
    let again = between(&Random::seeded(1), &Random::seeded(2), Position::default());

    assert_eq!(&first, &again);
}

#[test]
fn different_seeds_diverge() {
    let one = between(&Random::seeded(1), &Random::seeded(2), Position::default());
    let other = between(&Random::seeded(7), &Random::seeded(9), Position::default());

    assert_eq!(one.log() == other.log(), false);
}

/// Headless play always finishes, and the game it yields is a real game.

#[test]
fn a_random_game_always_ends() {
    // The 75-move and fivefold draws cap every line, so the loop halts.
    let game = between(
        &Random::seeded(42),
        &Random::seeded(43),
        Position::default(),
    );

    assert_eq!(game.mode() == Mode::Playing, false);
}

#[test]
fn the_result_is_a_valid_game() {
    let game = between(&Random::seeded(5), &Random::seeded(6), Position::default());

    // Replaying its log reproduces it — self-play produces real games.
    assert_eq!((Game::replay(Position::default(), game.log().to_vec())).as_ref().ok(), Some(&game.position()));
}

#[test]
fn a_played_game_scores_a_real_result() {
    let game = between(&Random::seeded(8), &Random::seeded(13), Position::default());

    // Not unfinished — the score ends with an outcome, never "*".
    assert_eq!(game.score().ends_with('*'), false);
}
