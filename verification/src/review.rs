//! Reading games: the annotator.
//!
//! A game-level interpreter, one altitude above the move-interpreter.
//! [`annotate`] turns a *game* into a narrative of decisions: it folds the
//! game's history through a position evaluator and differences it, so
//! each move carries how much it swung the position from its *mover's*
//! point of view. A sharply negative swing is a fumble; the worst is the
//! turning point. The verdict is only as honest as the evaluator.

use vstd::prelude::*;

use crate::action::Action;
use crate::game::Game;
use crate::piece::Color;
use crate::play::{evaluator, leaf_value};
use crate::position::Position;
use crate::rules::PositionModel;

verus! {

/// What one move did to the position, from the mover's point of view.
/// `swing` is the change in the position's value across the move (in the
/// evaluator's units); sharply negative is a fumble.
#[derive(Copy, Clone, PartialEq, Eq, Structural, Debug)]
pub struct Assessment {
    pub ply: usize,
    pub mover: Color,
    pub action: Action,
    pub swing: i32,
}

/// What `eval` says of `m`, normalised to White's view: evaluators report
/// from the side to move's view, so successive plies become comparable.
pub open spec fn white_view<E: Fn(Position) -> i32>(eval: E, m: PositionModel) -> int {
    match m.turn {
        Color::White => leaf_value(eval, m),
        Color::Black => -leaf_value(eval, m),
    }
}

/// How much the move from `before` to `after` swung the position for the
/// player who made it (the side to move in `before`).
pub open spec fn swing_spec<E: Fn(Position) -> i32>(eval: E, before: PositionModel, after: PositionModel) -> int {
    let delta = white_view(eval, after) - white_view(eval, before);
    match before.turn {
        Color::White => delta,
        Color::Black => -delta,
    }
}

/// Whether the move from `before` to `after` can be scored in `i32`: the
/// change in White's view fits, and so does its negation for Black.
pub open spec fn scorable<E: Fn(Position) -> i32>(eval: E, before: PositionModel, after: PositionModel) -> bool {
    let delta = white_view(eval, after) - white_view(eval, before);
    &&& i32::MIN <= delta <= i32::MAX
    &&& before.turn == Color::Black ==> delta != i32::MIN
}

/// An evaluator's verdict normalised to White's view.
fn white_pov<E: Fn(Position) -> i32>(position: Position, eval: &E) -> (value: i32)
    requires
        evaluator(*eval),
    ensures
        value == white_view(*eval, position@),
{
    let x = eval(position);
    proof {
        crate::play::lemma_leaf(*eval, position, x);
    }
    match position.turn() {
        Color::White => x,
        Color::Black => -x,
    }
}

/// The shift series: every move scored by how much it swung the position
/// for the player who made it. A fold over the game's history through
/// `eval`, then a difference — the lowest swing is the turning point.
pub fn annotate<E: Fn(Position) -> i32>(game: &Game, eval: &E) -> (series: Vec<Assessment>)
    requires
        evaluator(*eval),
        forall|k: int|
            0 <= k < game@.log.len() ==> scorable(*eval, #[trigger] game@.history[k], game@.history[k + 1]),
    ensures
        series@.len() == game@.log.len(),
        forall|k: int|
            0 <= k < series@.len() ==> #[trigger] series@[k] == (Assessment {
                ply: (k + 1) as usize,
                mover: game@.history[k].turn,
                action: game@.log[k],
                swing: swing_spec(*eval, game@.history[k], game@.history[k + 1]) as i32,
            }),
{
    proof {
        use_type_invariant(game);
    }
    let log = game.log();
    let plies = game.plies();
    let mut series: Vec<Assessment> = Vec::new();
    let mut ply: usize = 0;
    while ply < plies
        invariant
            ply <= plies,
            plies == game@.log.len(),
            log@ == game@.log,
            game@.history.len() == game@.log.len() + 1,
            evaluator(*eval),
            forall|k: int|
                0 <= k < game@.log.len() ==> scorable(*eval, #[trigger] game@.history[k], game@.history[k + 1]),
            series@.len() == ply,
            forall|k: int|
                0 <= k < ply ==> #[trigger] series@[k] == (Assessment {
                    ply: (k + 1) as usize,
                    mover: game@.history[k].turn,
                    action: game@.log[k],
                    swing: swing_spec(*eval, game@.history[k], game@.history[k + 1]) as i32,
                }),
        decreases plies - ply,
    {
        assert(scorable(*eval, game@.history[ply as int], game@.history[ply + 1]));
        let mover = game[ply].turn();
        let before = white_pov(game[ply], eval);
        let after = white_pov(game[ply + 1], eval);
        let delta = after - before;
        let swing = match mover {
            Color::White => delta,
            Color::Black => -delta,
        };
        series.push(Assessment { ply: ply + 1, mover, action: log[ply], swing });
        ply = ply + 1;
    }
    series
}

/// What `eval` says `m` is worth to `player`: the evaluator speaks for
/// the side to move, so the other side's worth is its negation.
pub open spec fn worth_to<E: Fn(Position) -> i32>(eval: E, m: PositionModel, player: Color) -> int {
    if m.turn == player {
        leaf_value(eval, m)
    } else {
        -leaf_value(eval, m)
    }
}

/// A move's swing is what the position is worth to the player who made it
/// after the move, less what it was worth to them before — for either
/// colour, so a move that wins material under `material` swings positive.
pub proof fn lemma_swing_is_the_movers_gain<E: Fn(Position) -> i32>(
    eval: E,
    before: PositionModel,
    after: PositionModel,
)
    ensures
        swing_spec(eval, before, after) == worth_to(eval, after, before.turn) - worth_to(
            eval,
            before,
            before.turn,
        ),
{
}

} // verus!
