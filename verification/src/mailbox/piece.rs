//! The piece catalog of the grid board: a piece is a type paired with a
//! color, and a square holds at most one piece.

use vstd::prelude::*;

verus! {

#[derive(Clone, Copy, Debug, PartialEq, Eq, Structural)]
pub enum PieceType {
    Pawn,
    Knight,
    Bishop,
    Rook,
    Queen,
    King,
}

#[derive(Clone, Copy, Debug, PartialEq, Eq, Structural)]
pub enum Color {
    White,
    Black,
}

#[derive(Clone, Copy, Debug, PartialEq, Eq, Structural)]
pub struct Piece {
    pub piece_type: PieceType,
    pub color: Color,
}

impl Piece {
    pub fn pawn(color: Color) -> (r: Self)
        ensures
            r == (Piece { piece_type: PieceType::Pawn, color }),
    {
        Self { piece_type: PieceType::Pawn, color }
    }

    pub fn knight(color: Color) -> (r: Self)
        ensures
            r == (Piece { piece_type: PieceType::Knight, color }),
    {
        Self { piece_type: PieceType::Knight, color }
    }

    pub fn bishop(color: Color) -> (r: Self)
        ensures
            r == (Piece { piece_type: PieceType::Bishop, color }),
    {
        Self { piece_type: PieceType::Bishop, color }
    }

    pub fn rook(color: Color) -> (r: Self)
        ensures
            r == (Piece { piece_type: PieceType::Rook, color }),
    {
        Self { piece_type: PieceType::Rook, color }
    }

    pub fn queen(color: Color) -> (r: Self)
        ensures
            r == (Piece { piece_type: PieceType::Queen, color }),
    {
        Self { piece_type: PieceType::Queen, color }
    }

    pub fn king(color: Color) -> (r: Self)
        ensures
            r == (Piece { piece_type: PieceType::King, color }),
    {
        Self { piece_type: PieceType::King, color }
    }

    /// Single-character encoding: uppercase for white, lowercase for black.
    pub open spec fn spec_char(self) -> char {
        match (self.piece_type, self.color) {
            (PieceType::Pawn, Color::White) => 'P',
            (PieceType::Pawn, Color::Black) => 'p',
            (PieceType::Knight, Color::White) => 'N',
            (PieceType::Knight, Color::Black) => 'n',
            (PieceType::Bishop, Color::White) => 'B',
            (PieceType::Bishop, Color::Black) => 'b',
            (PieceType::Rook, Color::White) => 'R',
            (PieceType::Rook, Color::Black) => 'r',
            (PieceType::Queen, Color::White) => 'Q',
            (PieceType::Queen, Color::Black) => 'q',
            (PieceType::King, Color::White) => 'K',
            (PieceType::King, Color::Black) => 'k',
        }
    }

    pub open spec fn spec_from_char(c: char) -> Option<Piece> {
        if c == 'P' {
            Some(Piece { piece_type: PieceType::Pawn, color: Color::White })
        } else if c == 'p' {
            Some(Piece { piece_type: PieceType::Pawn, color: Color::Black })
        } else if c == 'N' {
            Some(Piece { piece_type: PieceType::Knight, color: Color::White })
        } else if c == 'n' {
            Some(Piece { piece_type: PieceType::Knight, color: Color::Black })
        } else if c == 'B' {
            Some(Piece { piece_type: PieceType::Bishop, color: Color::White })
        } else if c == 'b' {
            Some(Piece { piece_type: PieceType::Bishop, color: Color::Black })
        } else if c == 'R' {
            Some(Piece { piece_type: PieceType::Rook, color: Color::White })
        } else if c == 'r' {
            Some(Piece { piece_type: PieceType::Rook, color: Color::Black })
        } else if c == 'Q' {
            Some(Piece { piece_type: PieceType::Queen, color: Color::White })
        } else if c == 'q' {
            Some(Piece { piece_type: PieceType::Queen, color: Color::Black })
        } else if c == 'K' {
            Some(Piece { piece_type: PieceType::King, color: Color::White })
        } else if c == 'k' {
            Some(Piece { piece_type: PieceType::King, color: Color::Black })
        } else {
            None
        }
    }

    pub fn simple_char(&self) -> (r: char)
        ensures
            r == self.spec_char(),
    {
        match (self.piece_type, self.color) {
            (PieceType::Pawn, Color::White) => 'P',
            (PieceType::Pawn, Color::Black) => 'p',
            (PieceType::Knight, Color::White) => 'N',
            (PieceType::Knight, Color::Black) => 'n',
            (PieceType::Bishop, Color::White) => 'B',
            (PieceType::Bishop, Color::Black) => 'b',
            (PieceType::Rook, Color::White) => 'R',
            (PieceType::Rook, Color::Black) => 'r',
            (PieceType::Queen, Color::White) => 'Q',
            (PieceType::Queen, Color::Black) => 'q',
            (PieceType::King, Color::White) => 'K',
            (PieceType::King, Color::Black) => 'k',
        }
    }

    pub fn from_char(c: char) -> (r: Option<Self>)
        ensures
            r == Self::spec_from_char(c),
    {
        match c {
            'P' => Some(Self::pawn(Color::White)),
            'p' => Some(Self::pawn(Color::Black)),
            'N' => Some(Self::knight(Color::White)),
            'n' => Some(Self::knight(Color::Black)),
            'B' => Some(Self::bishop(Color::White)),
            'b' => Some(Self::bishop(Color::Black)),
            'R' => Some(Self::rook(Color::White)),
            'r' => Some(Self::rook(Color::Black)),
            'Q' => Some(Self::queen(Color::White)),
            'q' => Some(Self::queen(Color::Black)),
            'K' => Some(Self::king(Color::White)),
            'k' => Some(Self::king(Color::Black)),
            _ => None,
        }
    }
}

/// One cell of the grid board.
#[derive(Clone, Copy, Debug, PartialEq, Eq)]
pub struct Square(pub Option<Piece>);

} // verus!
