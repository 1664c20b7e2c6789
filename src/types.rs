use vstd::prelude::*;

verus! {

/// The side a piece belongs to, or the side to move.
#[derive(Clone, Copy, Debug, PartialEq, Eq, Structural)]
pub enum Color {
    White,
    Black,
}

/// The six kinds of chess pieces.
#[derive(Clone, Copy, Debug, PartialEq, Eq, Structural)]
pub enum Piece {
    King,
    Queen,
    Rook,
    Bishop,
    Knight,
    Pawn,
}

impl Color {
    pub open spec fn flip(self) -> Color {
        match self {
            Color::White => Color::Black,
            Color::Black => Color::White,
        }
    }

    /// The other side.
    pub fn opposite(self) -> (r: Color)
        ensures
            r == self.flip(),
    {
        match self {
            Color::White => Color::Black,
            Color::Black => Color::White,
        }
    }
}

impl Piece {
    /// Position of the kind within one side's six bitboards.
    pub open spec fn index_spec(self) -> int {
        match self {
            Piece::King => 0,
            Piece::Queen => 1,
            Piece::Rook => 2,
            Piece::Bishop => 3,
            Piece::Knight => 4,
            Piece::Pawn => 5,
        }
    }

    pub open spec fn from_index_spec(i: int) -> Piece {
        if i == 0 {
            Piece::King
        } else if i == 1 {
            Piece::Queen
        } else if i == 2 {
            Piece::Rook
        } else if i == 3 {
            Piece::Bishop
        } else if i == 4 {
            Piece::Knight
        } else {
            Piece::Pawn
        }
    }

    pub fn index(self) -> (r: usize)
        ensures
            r as int == self.index_spec(),
            r < 6,
    {
        match self {
            Piece::King => 0,
            Piece::Queen => 1,
            Piece::Rook => 2,
            Piece::Bishop => 3,
            Piece::Knight => 4,
            Piece::Pawn => 5,
        }
    }
}

} // verus!
