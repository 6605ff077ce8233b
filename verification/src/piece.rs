//! The closed catalog of the 12 piece identities and the two colors.

use vstd::prelude::*;

verus! {

#[derive(Clone, Copy, Debug, PartialEq, Eq, Structural)]
pub enum Color {
    White,
    Black,
}

impl Color {
    /// Slot of this color in the occupancy array (slot 0 holds all pieces).
    pub open spec fn spec_index(self) -> int {
        match self {
            Color::White => 1,
            Color::Black => 2,
        }
    }

    pub open spec fn spec_opposite(self) -> Color {
        match self {
            Color::White => Color::Black,
            Color::Black => Color::White,
        }
    }

    pub fn index(&self) -> (r: usize)
        ensures
            r == self.spec_index(),
    {
        match self {
            Self::White => 1,
            Self::Black => 2,
        }
    }

    pub fn from_index(index: usize) -> (r: Option<Self>)
        ensures
            index == 1 ==> r == Some(Color::White),
            index == 2 ==> r == Some(Color::Black),
            index != 1 && index != 2 ==> r is None,
    {
        match index {
            1 => Some(Self::White),
            2 => Some(Self::Black),
            _ => None,
        }
    }

    pub fn opposite(&self) -> (r: Self)
        ensures
            r == self.spec_opposite(),
    {
        match self {
            Self::White => Self::Black,
            Self::Black => Self::White,
        }
    }
}

#[derive(Clone, Copy, Debug, PartialEq, Eq, Hash, Structural)]
pub enum Piece {
    WhitePawn,
    WhiteKnight,
    WhiteBishop,
    WhiteRook,
    WhiteQueen,
    WhiteKing,
    BlackPawn,
    BlackKnight,
    BlackBishop,
    BlackRook,
    BlackQueen,
    BlackKing,
}

impl Piece {
    /// Fixed index of this identity into the per-piece square sets:
    /// white pieces take 0 to 5, black pieces 6 to 11.
    pub open spec fn spec_index(self) -> int {
        match self {
            Piece::WhitePawn => 0,
            Piece::WhiteKnight => 1,
            Piece::WhiteBishop => 2,
            Piece::WhiteRook => 3,
            Piece::WhiteQueen => 4,
            Piece::WhiteKing => 5,
            Piece::BlackPawn => 6,
            Piece::BlackKnight => 7,
            Piece::BlackBishop => 8,
            Piece::BlackRook => 9,
            Piece::BlackQueen => 10,
            Piece::BlackKing => 11,
        }
    }

    pub open spec fn spec_from_index(index: int) -> Option<Piece> {
        if index == 0 {
            Some(Piece::WhitePawn)
        } else if index == 1 {
            Some(Piece::WhiteKnight)
        } else if index == 2 {
            Some(Piece::WhiteBishop)
        } else if index == 3 {
            Some(Piece::WhiteRook)
        } else if index == 4 {
            Some(Piece::WhiteQueen)
        } else if index == 5 {
            Some(Piece::WhiteKing)
        } else if index == 6 {
            Some(Piece::BlackPawn)
        } else if index == 7 {
            Some(Piece::BlackKnight)
        } else if index == 8 {
            Some(Piece::BlackBishop)
        } else if index == 9 {
            Some(Piece::BlackRook)
        } else if index == 10 {
            Some(Piece::BlackQueen)
        } else if index == 11 {
            Some(Piece::BlackKing)
        } else {
            None
        }
    }

    pub open spec fn spec_color(self) -> Color {
        if self.spec_index() < 6 {
            Color::White
        } else {
            Color::Black
        }
    }

    /// Single-character encoding: uppercase for white, lowercase for black.
    pub open spec fn spec_char(self) -> char {
        match self {
            Piece::WhitePawn => 'P',
            Piece::WhiteKnight => 'N',
            Piece::WhiteBishop => 'B',
            Piece::WhiteRook => 'R',
            Piece::WhiteQueen => 'Q',
            Piece::WhiteKing => 'K',
            Piece::BlackPawn => 'p',
            Piece::BlackKnight => 'n',
            Piece::BlackBishop => 'b',
            Piece::BlackRook => 'r',
            Piece::BlackQueen => 'q',
            Piece::BlackKing => 'k',
        }
    }

    pub open spec fn spec_from_char(c: char) -> Option<Piece> {
        if c == 'P' {
            Some(Piece::WhitePawn)
        } else if c == 'N' {
            Some(Piece::WhiteKnight)
        } else if c == 'B' {
            Some(Piece::WhiteBishop)
        } else if c == 'R' {
            Some(Piece::WhiteRook)
        } else if c == 'Q' {
            Some(Piece::WhiteQueen)
        } else if c == 'K' {
            Some(Piece::WhiteKing)
        } else if c == 'p' {
            Some(Piece::BlackPawn)
        } else if c == 'n' {
            Some(Piece::BlackKnight)
        } else if c == 'b' {
            Some(Piece::BlackBishop)
        } else if c == 'r' {
            Some(Piece::BlackRook)
        } else if c == 'q' {
            Some(Piece::BlackQueen)
        } else if c == 'k' {
            Some(Piece::BlackKing)
        } else {
            None
        }
    }

    pub fn index(&self) -> (r: usize)
        ensures
            r == self.spec_index(),
    {
        match self {
            Self::WhitePawn => 0,
            Self::WhiteKnight => 1,
            Self::WhiteBishop => 2,
            Self::WhiteRook => 3,
            Self::WhiteQueen => 4,
            Self::WhiteKing => 5,
            Self::BlackPawn => 6,
            Self::BlackKnight => 7,
            Self::BlackBishop => 8,
            Self::BlackRook => 9,
            Self::BlackQueen => 10,
            Self::BlackKing => 11,
        }
    }

    pub fn from_index(index: usize) -> (r: Option<Self>)
        ensures
            r == Self::spec_from_index(index as int),
    {
        match index {
            0 => Some(Self::WhitePawn),
            1 => Some(Self::WhiteKnight),
            2 => Some(Self::WhiteBishop),
            3 => Some(Self::WhiteRook),
            4 => Some(Self::WhiteQueen),
            5 => Some(Self::WhiteKing),
            6 => Some(Self::BlackPawn),
            7 => Some(Self::BlackKnight),
            8 => Some(Self::BlackBishop),
            9 => Some(Self::BlackRook),
            10 => Some(Self::BlackQueen),
            11 => Some(Self::BlackKing),
            _ => None,
        }
    }

    pub fn color(&self) -> (r: Color)
        ensures
            r == self.spec_color(),
    {
        match self {
            Self::WhitePawn
            | Self::WhiteKnight
            | Self::WhiteBishop
            | Self::WhiteRook
            | Self::WhiteQueen
            | Self::WhiteKing => Color::White,
            Self::BlackPawn
            | Self::BlackKnight
            | Self::BlackBishop
            | Self::BlackRook
            | Self::BlackQueen
            | Self::BlackKing => Color::Black,
        }
    }

    pub fn simple_char(&self) -> (r: char)
        ensures
            r == self.spec_char(),
    {
        match self {
            Self::WhitePawn => 'P',
            Self::WhiteKnight => 'N',
            Self::WhiteBishop => 'B',
            Self::WhiteRook => 'R',
            Self::WhiteQueen => 'Q',
            Self::WhiteKing => 'K',
            Self::BlackPawn => 'p',
            Self::BlackKnight => 'n',
            Self::BlackBishop => 'b',
            Self::BlackRook => 'r',
            Self::BlackQueen => 'q',
            Self::BlackKing => 'k',
        }
    }

    pub fn from_char(c: char) -> (r: Option<Self>)
        ensures
            r == Self::spec_from_char(c),
    {
        match c {
            'P' => Some(Self::WhitePawn),
            'N' => Some(Self::WhiteKnight),
            'B' => Some(Self::WhiteBishop),
            'R' => Some(Self::WhiteRook),
            'Q' => Some(Self::WhiteQueen),
            'K' => Some(Self::WhiteKing),
            'p' => Some(Self::BlackPawn),
            'n' => Some(Self::BlackKnight),
            'b' => Some(Self::BlackBishop),
            'r' => Some(Self::BlackRook),
            'q' => Some(Self::BlackQueen),
            'k' => Some(Self::BlackKing),
            _ => None,
        }
    }
}

} // verus!
