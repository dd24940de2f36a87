use caissa::notation::{e2, e4, e5, e7, e8, f3, g1, h7, h8, knight, queen};
use caissa::{Action, Color, Piece, Position, Rejected, Role};

/// The `>>` operator is the arrow we have: `from >> to` builds an
/// action, and a role on the end turns it into a promotion.

#[test]
fn shr_builds_an_action_from_two_squares() {
    assert_eq!(e2 >> e4, Action::Move { from: e2, to: e4 });
}

#[test]
fn shr_with_a_role_makes_it_a_promotion() {
    assert_eq!(e7 >> e8 >> queen, Action::Promote { from: e7, to: e8, into: Role::Queen });
}

/// Adding an action to a position applies it; Results chain, and a
/// rejection short-circuits the rest of the line.

#[test]
fn an_opening_in_operator_notation() {
    let position = (Position::default() + (e2 >> e4) + (e7 >> e5) + (g1 >> f3)).unwrap();

    assert_eq!(position.at(f3), Some(Piece { color: Color::White, role: Role::Knight }));
    assert_eq!(position.turn(), Color::Black);
}

#[test]
fn promotion_reads_like_notation() {
    let board = Position::empty(Color::White)
        .with(h7, Piece { color: Color::White, role: Role::Pawn });

    let promoted = (board + (h7 >> h8 >> knight)).unwrap();

    assert_eq!(promoted.at(h8), Some(Piece { color: Color::White, role: Role::Knight }));
}

#[test]
fn a_rejection_short_circuits_the_chain() {
    let result = Position::default() + (e7 >> e5) + (e5 >> e4);

    assert_eq!((result).as_ref().err(), Some(&Rejected::NotYourTurn {
            piece: Piece { color: Color::Black, role: Role::Pawn }
        }));
}
