//! Operator notation. `->` is not overloadable in Rust; `>>` is the
//! arrow-shaped operator that is.
//!
//! - `from >> to` builds an [`Action`]
//! - `action >> role` turns it into a promotion
//! - `position + action` applies it (and `Result + action` chains, so a
//!   line of moves threads its errors monadically)

use std::ops::{Add, Shr};

use vstd::prelude::*;

use crate::action::Action;
use crate::piece::Role;
use crate::position::Position;
use crate::reduce::{position_result, reduce, Rejected, Rejection};
use crate::rules::{reduce_spec, PositionModel};
use crate::square::Square;

verus! {

impl Shr<Square> for Square {
    type Output = Action;

    /// `from >> to`: the move from one square to the other.
    fn shr(self, to: Square) -> (action: Action) {
        Action::Move { from: self, to }
    }
}

impl vstd::std_specs::ops::ShrSpecImpl<Square> for Square {
    open spec fn obeys_shr_spec() -> bool {
        true
    }

    open spec fn shr_req(self, to: Square) -> bool {
        true
    }

    open spec fn shr_spec(self, to: Square) -> Action {
        Action::Move { from: self, to }
    }
}

/// The action with the same squares, promoting to `into`.
pub open spec fn promote_spec(action: Action, into: Role) -> Action {
    Action::Promote { from: action.from_sq(), to: action.to_sq(), into }
}

impl Shr<Role> for Action {
    type Output = Action;

    /// `action >> role`: the same squares, as a promotion to `role`.
    fn shr(self, into: Role) -> (action: Action) {
        match self {
            Action::Move { from, to } => Action::Promote { from, to, into },
            Action::Promote { from, to, .. } => Action::Promote { from, to, into },
        }
    }
}

impl vstd::std_specs::ops::ShrSpecImpl<Role> for Action {
    open spec fn obeys_shr_spec() -> bool {
        true
    }

    open spec fn shr_req(self, into: Role) -> bool {
        true
    }

    open spec fn shr_spec(self, into: Role) -> Action {
        promote_spec(self, into)
    }
}

impl Add<Action> for Position {
    type Output = Result<Position, Rejected>;

    /// `position + action`: the reducer's verdict.
    fn add(self, action: Action) -> (next: Result<Position, Rejected>)
        ensures
            position_result(next) == reduce_spec(self@, action),
    {
        reduce(self, action)
    }
}

impl vstd::std_specs::ops::AddSpecImpl<Action> for Position {
    open spec fn obeys_add_spec() -> bool {
        false
    }

    open spec fn add_req(self, action: Action) -> bool {
        true
    }

    open spec fn add_spec(self, action: Action) -> Result<Position, Rejected> {
        arbitrary()
    }
}

/// Chaining: a rejection passes through, a position takes the next action.
pub open spec fn chain_spec(r: Result<PositionModel, Rejection>, action: Action) -> Result<PositionModel, Rejection> {
    match r {
        Ok(position) => reduce_spec(position, action),
        Err(e) => Err(e),
    }
}

impl Add<Action> for Result<Position, Rejected> {
    type Output = Result<Position, Rejected>;

    /// `result + action`: a rejection short-circuits the rest of the line.
    fn add(self, action: Action) -> (next: Result<Position, Rejected>)
        ensures
            position_result(next) == chain_spec(position_result(self), action),
    {
        match self {
            Ok(position) => reduce(position, action),
            Err(e) => Err(e),
        }
    }
}

impl vstd::std_specs::ops::AddSpecImpl<Action> for Result<Position, Rejected> {
    open spec fn obeys_add_spec() -> bool {
        false
    }

    open spec fn add_req(self, action: Action) -> bool {
        true
    }

    open spec fn add_spec(self, action: Action) -> Result<Position, Rejected> {
        arbitrary()
    }
}

} // verus!
