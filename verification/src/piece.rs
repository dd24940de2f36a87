use vstd::prelude::*;

verus! {

/// The two sides.
#[derive(Copy, Clone, PartialEq, Eq, Structural, Hash, Debug)]
pub enum Color {
    White,
    Black,
}

/// The side that is not `color`.
pub open spec fn spec_opponent(color: Color) -> Color {
    match color {
        Color::White => Color::Black,
        Color::Black => Color::White,
    }
}

impl Color {
    /// The other side.
    pub fn opponent(self) -> (other: Color)
        ensures
            other == spec_opponent(self),
    {
        match self {
            Color::White => Color::Black,
            Color::Black => Color::White,
        }
    }
}

/// Which side of the board a castle happens on.
#[derive(Copy, Clone, PartialEq, Eq, Structural, Hash, Debug)]
pub enum Wing {
    King,
    Queen,
}

/// What a piece is, regardless of its colour.
#[derive(Copy, Clone, PartialEq, Eq, Structural, Hash, Debug)]
pub enum Role {
    Pawn,
    Knight,
    Bishop,
    Rook,
    Queen,
    King,
}

/// A coloured piece.
#[derive(Copy, Clone, PartialEq, Eq, Structural, Hash, Debug)]
pub struct Piece {
    pub color: Color,
    pub role: Role,
}

impl Piece {
    /// A white piece of the given role.
    pub fn white(role: Role) -> (piece: Piece)
        ensures
            piece == (Piece { color: Color::White, role }),
    {
        Piece { color: Color::White, role }
    }

    /// A black piece of the given role.
    pub fn black(role: Role) -> (piece: Piece)
        ensures
            piece == (Piece { color: Color::Black, role }),
    {
        Piece { color: Color::Black, role }
    }
}

} // verus!
