//! A functional chess library.
//!
//! Positions are plain `Copy` values, moves are pure transitions, and a game
//! is a fold of actions over a starting position. An [`Action`] carries no
//! more than the player's intent — a from-square and a to-square — because
//! the position already knows everything else. The one exception chess
//! forces is promotion, which gets its own action variant.
//!
//! The reducer enforces full legality around the king: a move that leaves
//! your own king attacked is rejected ([`Rejected::IntoCheck`]). A game is
//! either being played or has been played ([`Mode`]); [`Game`] computes it
//! once per accepted move and carries it — once `Played`, every action is
//! [`Rejected::GameOver`].
//!
//! Every function here carries a contract proved against a model of the
//! rules of chess (the `rules` module): the reducer, legality, SAN and FEN,
//! PGN import and export, studies, timelines, clocks and self-play.

mod action;
pub mod classics;
mod clock;
mod fen;
mod game;
mod inverse;
pub mod notation;
mod ops;
pub mod pgn;
mod piece;
pub mod play;
mod position;
mod progress;
mod reduce;
pub mod review;
mod capture;
mod readback;
mod rules;
mod san;
mod square;
pub mod study;
mod text;
mod timeline;

pub use action::{Action, IntoAction};
pub use clock::Clocked;
pub use game::{Game, IntoPly, Ply, Terminus};
pub use pgn::import;
pub use piece::{Color, Piece, Role, Wing};
pub use position::Position;
pub use reduce::{
    expand, in_check, legal_actions, mode, reduce, DrawReason, Edit, Ending, Mode, Rejected,
};
pub use san::{to_figurine, to_san, Origin, San};
pub use square::Square;
pub use timeline::{Frame, Span, Stamp, Timeline};
