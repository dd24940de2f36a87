use caissa::notation::{d8, e4, e5, h4, Terminus};
use caissa::{Color, Game, Piece, Position, Role};

fn fools_mate() -> Game {
    ["f2f3", "e7e5", "g2g4", "d8h4"]
        .into_iter()
        .try_fold(Game::new(), |game, action| game.apply(action))
        .unwrap()
}

fn ruy_lopez_start() -> Game {
    ["e2e4", "e7e5", "g1f3", "b8c6", "f1b5"]
        .into_iter()
        .try_fold(Game::new(), |game, action| game.apply(action))
        .unwrap()
}

#[test]
fn game_zero_is_the_start() {
    let game = ruy_lopez_start();

    assert_eq!(game[0], Position::default());
}

#[test]
fn jump_notation_reaches_any_ply() {
    let game = ruy_lopez_start();

    assert_eq!(game[1].at(e4), Some(Piece { color: Color::White, role: Role::Pawn }));
    assert_eq!(game[2].at(e5), Some(Piece { color: Color::Black, role: Role::Pawn }));
    assert_eq!(game[game.plies()], game.position());
}

#[test]
fn white_makes_the_odd_plies() {
    let game = ruy_lopez_start();

    for ply in 1..=game.plies() {
        let mover = game[ply - 1].turn();
        let expected = if ply % 2 == 1 { Color::White } else { Color::Black };
        assert_eq!(mover, expected);
    }
}

#[test]
fn position_at_is_the_checked_form() {
    let game = ruy_lopez_start();

    assert_eq!(game.position_at(5), Some(game.position()));
    assert!((game.position_at(6)).is_none());
}

#[test]
fn terminus_is_the_final_position() {
    let game = fools_mate();

    assert_eq!(game[Terminus], game.position());
    assert_eq!(game[Terminus].at(h4), Some(Piece { color: Color::Black, role: Role::Queen }));
}

#[test]
fn terminus_minus_one_is_the_board_before_the_mating_move() {
    let game = fools_mate();

    assert!((game[Terminus - 1].at(h4)).is_none());
    assert_eq!(game[Terminus - 1].at(d8), Some(Piece { color: Color::Black, role: Role::Queen }));
    assert_eq!(game[Terminus - 1], game[3]);
}

#[test]
fn symbolic_indices_subtract_like_numbers() {
    let game = fools_mate();

    assert_eq!(game[Terminus - 1 - 1], game[2]);
    assert_eq!(game[Terminus - 4], Position::default());
}

#[test]
fn position_at_checks_both_ends() {
    let game = fools_mate();

    assert_eq!(game.position_at(Terminus), Some(game.position()));
    assert!((game.position_at(Terminus - 5)).is_none());
}

#[test]
#[should_panic]
fn indexing_before_the_start_panics_like_a_slice() {
    let game = fools_mate();
    let _ = game[Terminus - 5];
}

#[test]
#[should_panic]
fn indexing_past_the_end_panics_like_a_slice() {
    let game = ruy_lopez_start();
    let _ = game[6];
}

#[test]
fn undo_drops_the_last_cache_entry() {
    let game = ruy_lopez_start();

    let undone = game.undo();

    assert_eq!(undone.plies(), 4);
    assert_eq!(undone.position(), game[4]);
}
