use std::str::FromStr;

use vstd::prelude::*;

use crate::piece::Role;
use crate::position::Position;
use crate::reduce::{res, Rejected, Rejection};
use crate::rules::PositionModel;
use crate::san::{spec_parse_san, spec_resolve, San};
use crate::square::{spec_parse_square, Square};
use crate::text::chars_of;

verus! {

/// A player's intent, and nothing more. The position supplies the rest:
/// what stands on `from`, whether `to` is a capture.
#[derive(Copy, Clone, PartialEq, Eq, Structural, Hash, Debug)]
pub enum Action {
    /// Move whatever stands on `from` to `to`.
    Move { from: Square, to: Square },
    /// A pawn reaching the last rank must say what it becomes.
    Promote { from: Square, to: Square, into: Role },
}

impl Action {
    /// The square the action starts from.
    pub open spec fn from_sq(self) -> Square {
        match self {
            Action::Move { from, .. } => from,
            Action::Promote { from, .. } => from,
        }
    }

    /// The square the action ends on.
    pub open spec fn to_sq(self) -> Square {
        match self {
            Action::Move { to, .. } => to,
            Action::Promote { to, .. } => to,
        }
    }
}

/// The promotion role a UCI suffix letter names.
pub open spec fn uci_promotion(c: char) -> Option<Role> {
    if c == 'q' {
        Some(Role::Queen)
    } else if c == 'r' {
        Some(Role::Rook)
    } else if c == 'b' {
        Some(Role::Bishop)
    } else if c == 'n' {
        Some(Role::Knight)
    } else {
        None
    }
}

/// UCI-style notation: `"h2h4"`, or `"h7h8q"` for promotion (q/r/b/n).
pub open spec fn spec_parse_uci(text: Seq<char>) -> Option<Action> {
    if text.len() != 4 && text.len() != 5 {
        None
    } else {
        match (spec_parse_square(text.subrange(0, 2)), spec_parse_square(text.subrange(2, 4))) {
            (Some(from), Some(to)) => if text.len() == 4 {
                Some(Action::Move { from, to })
            } else {
                match uci_promotion(text[4]) {
                    Some(into) => Some(Action::Promote { from, to, into }),
                    None => None,
                }
            },
            _ => None,
        }
    }
}

/// How a string stands in for an action: UCI first — its grammar is
/// regular and disjoint from SAN — then SAN, resolved against the position.
pub open spec fn spec_text_action(text: Seq<char>, position: PositionModel) -> Result<Action, Rejection> {
    match spec_parse_uci(text) {
        Some(action) => Ok(action),
        None => match spec_parse_san(text) {
            Some(san) => spec_resolve(san, position),
            None => Err(Rejection::Unparseable(text)),
        },
    }
}

impl Action {
    /// Reads UCI notation: `"h2h4"`, or `"h7h8q"` for a promotion.
    pub fn parse(text: &str) -> (action: Option<Action>)
        ensures
            action == spec_parse_uci(text@),
    {
        let chars = chars_of(text);
        Action::parse_chars(&chars)
    }

    pub(crate) fn parse_chars(chars: &Vec<char>) -> (action: Option<Action>)
        ensures
            action == spec_parse_uci(chars@),
    {
        if chars.len() != 4 && chars.len() != 5 {
            return None;
        }
        let from = Square::from_chars(chars[0], chars[1]);
        let to = Square::from_chars(chars[2], chars[3]);
        assert(chars@.subrange(0, 2) =~= seq![chars@[0], chars@[1]]);
        assert(chars@.subrange(2, 4) =~= seq![chars@[2], chars@[3]]);
        match (from, to) {
            (Some(from), Some(to)) => {
                if chars.len() == 4 {
                    Some(Action::Move { from, to })
                } else {
                    let c = chars[4];
                    let into = if c == 'q' {
                        Some(Role::Queen)
                    } else if c == 'r' {
                        Some(Role::Rook)
                    } else if c == 'b' {
                        Some(Role::Bishop)
                    } else if c == 'n' {
                        Some(Role::Knight)
                    } else {
                        None
                    };
                    match into {
                        Some(into) => Some(Action::Promote { from, to, into }),
                        None => None,
                    }
                }
            },
            _ => None,
        }
    }
}

impl From<(Square, Square)> for Action {
    fn from(pair: (Square, Square)) -> (action: Action) {
        Action::Move { from: pair.0, to: pair.1 }
    }
}

impl vstd::std_specs::convert::FromSpecImpl<(Square, Square)> for Action {
    open spec fn obeys_from_spec() -> bool {
        true
    }

    open spec fn from_spec(pair: (Square, Square)) -> Action {
        Action::Move { from: pair.0, to: pair.1 }
    }
}

impl FromStr for Action {
    type Err = Rejected;

    fn from_str(text: &str) -> (parsed: Result<Action, Rejected>)
        ensures
            crate::reduce::res(parsed) == match spec_parse_uci(text@) {
                Some(value) => Ok::<Action, Rejection>(value),
                None => Err(Rejection::Unparseable(text@)),
            },
    {
        match Action::parse(text) {
            Some(action) => Ok(action),
            None => Err(Rejected::Unparseable(text.to_string())),
        }
    }
}

/// Anything that can stand in for an action at a call site, so the public
/// API never requires naming the enum: `position.play("h2h4")`,
/// `game.apply("Nf3")`. The position is threaded through because SAN is a
/// description that only a position can resolve; UCI-shaped inputs ignore it.
pub trait IntoAction: Sized {
    /// The action this value stands for in `position`, or why it stands for none.
    spec fn spec_into_action(self, position: PositionModel) -> Result<Action, Rejection>;

    fn into_action(self, position: Position) -> (action: Result<Action, Rejected>)
        ensures
            res(action) == self.spec_into_action(position@),
    ;
}

impl IntoAction for Action {
    open spec fn spec_into_action(self, position: PositionModel) -> Result<Action, Rejection> {
        Ok(self)
    }

    fn into_action(self, position: Position) -> (action: Result<Action, Rejected>) {
        Ok(self)
    }
}

impl IntoAction for (Square, Square) {
    open spec fn spec_into_action(self, position: PositionModel) -> Result<Action, Rejection> {
        Ok(Action::Move { from: self.0, to: self.1 })
    }

    fn into_action(self, position: Position) -> (action: Result<Action, Rejected>) {
        Ok(Action::Move { from: self.0, to: self.1 })
    }
}

impl IntoAction for San {
    open spec fn spec_into_action(self, position: PositionModel) -> Result<Action, Rejection> {
        spec_resolve(self, position)
    }

    fn into_action(self, position: Position) -> (action: Result<Action, Rejected>) {
        self.resolve(position)
    }
}

impl<'a> IntoAction for &'a str {
    open spec fn spec_into_action(self, position: PositionModel) -> Result<Action, Rejection> {
        spec_text_action(self@, position)
    }

    fn into_action(self, position: Position) -> (action: Result<Action, Rejected>) {
        let chars = chars_of(self);
        match Action::parse_chars(&chars) {
            Some(action) => Ok(action),
            None => match San::parse_chars(&chars) {
                Some(san) => san.resolve(position),
                None => Err(Rejected::Unparseable(self.to_string())),
            },
        }
    }
}

} // verus!
