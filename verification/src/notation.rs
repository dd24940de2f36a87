//! Algebraic-notation constants: `e4`, `g1`, … plus lowercase role names,
//! so actions read like chess: `e2 >> e4`, `e7 >> e8 >> queen`.
#![allow(non_upper_case_globals)]

use vstd::prelude::*;

use crate::piece::Role;
use crate::square::Square;

pub use crate::game::Terminus;

verus! {

pub const a1: Square = Square::A1;
pub const b1: Square = Square::B1;
pub const c1: Square = Square::C1;
pub const d1: Square = Square::D1;
pub const e1: Square = Square::E1;
pub const f1: Square = Square::F1;
pub const g1: Square = Square::G1;
pub const h1: Square = Square::H1;

pub const a2: Square = Square::A2;
pub const b2: Square = Square::B2;
pub const c2: Square = Square::C2;
pub const d2: Square = Square::D2;
pub const e2: Square = Square::E2;
pub const f2: Square = Square::F2;
pub const g2: Square = Square::G2;
pub const h2: Square = Square::H2;

pub const a3: Square = Square::A3;
pub const b3: Square = Square::B3;
pub const c3: Square = Square::C3;
pub const d3: Square = Square::D3;
pub const e3: Square = Square::E3;
pub const f3: Square = Square::F3;
pub const g3: Square = Square::G3;
pub const h3: Square = Square::H3;

pub const a4: Square = Square::A4;
pub const b4: Square = Square::B4;
pub const c4: Square = Square::C4;
pub const d4: Square = Square::D4;
pub const e4: Square = Square::E4;
pub const f4: Square = Square::F4;
pub const g4: Square = Square::G4;
pub const h4: Square = Square::H4;

pub const a5: Square = Square::A5;
pub const b5: Square = Square::B5;
pub const c5: Square = Square::C5;
pub const d5: Square = Square::D5;
pub const e5: Square = Square::E5;
pub const f5: Square = Square::F5;
pub const g5: Square = Square::G5;
pub const h5: Square = Square::H5;

pub const a6: Square = Square::A6;
pub const b6: Square = Square::B6;
pub const c6: Square = Square::C6;
pub const d6: Square = Square::D6;
pub const e6: Square = Square::E6;
pub const f6: Square = Square::F6;
pub const g6: Square = Square::G6;
pub const h6: Square = Square::H6;

pub const a7: Square = Square::A7;
pub const b7: Square = Square::B7;
pub const c7: Square = Square::C7;
pub const d7: Square = Square::D7;
pub const e7: Square = Square::E7;
pub const f7: Square = Square::F7;
pub const g7: Square = Square::G7;
pub const h7: Square = Square::H7;

pub const a8: Square = Square::A8;
pub const b8: Square = Square::B8;
pub const c8: Square = Square::C8;
pub const d8: Square = Square::D8;
pub const e8: Square = Square::E8;
pub const f8: Square = Square::F8;
pub const g8: Square = Square::G8;
pub const h8: Square = Square::H8;

pub const queen: Role = Role::Queen;
pub const rook: Role = Role::Rook;
pub const bishop: Role = Role::Bishop;
pub const knight: Role = Role::Knight;

} // verus!
