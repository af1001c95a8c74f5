use vstd::prelude::*;

verus! {

/// The two sides of a game.
#[derive(Clone, Copy, Debug, PartialEq, Eq, Structural, Hash)]
pub enum Color {
    White,
    Black,
}

/// The kinds of chess pieces.
#[derive(Clone, Copy, Debug, PartialEq, Eq, Structural, Hash)]
pub enum Role {
    Pawn,
    Knight,
    Bishop,
    Rook,
    Queen,
    King,
}

/// A piece: a role played by one side.
#[derive(Clone, Copy, Debug, PartialEq, Eq, Structural, Hash)]
pub struct Piece {
    pub color: Color,
    pub role: Role,
}

/// A board square by index: `file + 8 * rank`, so a1 is 0, h1 is 7 and h8 is 63.
/// Indices from 64 up name no square of the board; every query treats them as empty.
#[derive(Clone, Copy, Debug, PartialEq, Eq, Structural, Hash)]
pub struct Square(pub u8);

impl Color {
    pub open spec fn other_spec(self) -> Color {
        match self {
            Color::White => Color::Black,
            Color::Black => Color::White,
        }
    }

    /// The opposing side.
    #[verifier::when_used_as_spec(other_spec)]
    pub fn other(self) -> (r: Color)
        ensures
            r == self.other_spec(),
    {
        match self {
            Color::White => Color::Black,
            Color::Black => Color::White,
        }
    }
}

impl Square {
    /// Whether the index names one of the 64 squares.
    pub open spec fn on_board(self) -> bool {
        self.0 < 64
    }
}

} // verus!
