//! Colours, piece kinds and the 4-bit piece codes of the table headers.
use vstd::prelude::*;

verus! {

/// The number of piece kinds, the king included.
pub const PIECE_KINDS: u8 = 6;

/// The kind of a pawn; the other kinds follow in the order knight, bishop, rook, queen, king.
pub const PAWN: u8 = 0;

/// The kind of a knight.
pub const KNIGHT: u8 = 1;

/// The kind of a bishop.
pub const BISHOP: u8 = 2;

/// The kind of a rook.
pub const ROOK: u8 = 3;

/// The kind of a queen.
pub const QUEEN: u8 = 4;

/// The kind of a king.
pub const KING: u8 = 5;

/// One of the two sides.
#[derive(Clone, Copy, Debug, PartialEq, Eq, Structural)]
pub enum Color {
    White,
    Black,
}

impl Color {
    /// The other side.
    pub open spec fn other(self) -> Color {
        match self {
            Color::White => Color::Black,
            Color::Black => Color::White,
        }
    }

    /// The side itself, or the other one where `flip` is set.
    pub open spec fn flipped_if(self, flip: bool) -> Color {
        if flip {
            self.other()
        } else {
            self
        }
    }

    /// The other side.
    pub fn opposite(self) -> (r: Color)
        ensures
            r == self.other(),
    {
        match self {
            Color::White => Color::Black,
            Color::Black => Color::White,
        }
    }

    /// The side itself, or the other one where `flip` is set.
    pub fn flip_if(self, flip: bool) -> (r: Color)
        ensures
            r == self.flipped_if(flip),
    {
        if flip {
            self.opposite()
        } else {
            self
        }
    }

    /// Whether this is the black side.
    pub fn is_black(self) -> (r: bool)
        ensures
            r == (self == Color::Black),
    {
        match self {
            Color::White => false,
            Color::Black => true,
        }
    }
}

/// A piece of one colour, as the table headers name it.
#[derive(Clone, Copy, Debug, PartialEq, Eq, Structural)]
pub enum ColoredPiece {
    WhitePawn,
    WhiteKnight,
    WhiteBishop,
    WhiteRook,
    WhiteQueen,
    WhiteKing,
    BlackPawn,
    BlackKnight,
    BlackBishop,
    BlackRook,
    BlackQueen,
    BlackKing,
}

impl ColoredPiece {
    /// The 4-bit code: the kind counted from 1 in the low three bits, and 8 added for black.
    pub open spec fn code(self) -> int {
        match self {
            ColoredPiece::WhitePawn => 1,
            ColoredPiece::WhiteKnight => 2,
            ColoredPiece::WhiteBishop => 3,
            ColoredPiece::WhiteRook => 4,
            ColoredPiece::WhiteQueen => 5,
            ColoredPiece::WhiteKing => 6,
            ColoredPiece::BlackPawn => 9,
            ColoredPiece::BlackKnight => 10,
            ColoredPiece::BlackBishop => 11,
            ColoredPiece::BlackRook => 12,
            ColoredPiece::BlackQueen => 13,
            ColoredPiece::BlackKing => 14,
        }
    }

    /// The piece with the code `v`.
    pub open spec fn of_code(v: int) -> ColoredPiece {
        if v == 1 {
            ColoredPiece::WhitePawn
        } else if v == 2 {
            ColoredPiece::WhiteKnight
        } else if v == 3 {
            ColoredPiece::WhiteBishop
        } else if v == 4 {
            ColoredPiece::WhiteRook
        } else if v == 5 {
            ColoredPiece::WhiteQueen
        } else if v == 6 {
            ColoredPiece::WhiteKing
        } else if v == 9 {
            ColoredPiece::BlackPawn
        } else if v == 10 {
            ColoredPiece::BlackKnight
        } else if v == 11 {
            ColoredPiece::BlackBishop
        } else if v == 12 {
            ColoredPiece::BlackRook
        } else if v == 13 {
            ColoredPiece::BlackQueen
        } else {
            ColoredPiece::BlackKing
        }
    }

    /// Whether `v` is the code of a piece: 0, 7, 8, 15 and all above are not.
    pub open spec fn valid_code(v: int) -> bool {
        1 <= v <= 6 || 9 <= v <= 14
    }

    /// The kind of the piece, from 0 for a pawn to 5 for a king.
    pub open spec fn kind(self) -> int {
        self.code() % 8 - 1
    }

    /// The side that owns the piece.
    pub open spec fn side(self) -> Color {
        if self.code() >= 8 {
            Color::Black
        } else {
            Color::White
        }
    }

    /// The piece that the code `v` stands for, if it stands for one.
    pub fn decode(v: u8) -> (r: Option<ColoredPiece>)
        ensures
            r is Some <==> ColoredPiece::valid_code(v as int),
            r matches Some(p) ==> p.code() == v && p == ColoredPiece::of_code(v as int),
    {
        match v {
            1 => Some(ColoredPiece::WhitePawn),
            2 => Some(ColoredPiece::WhiteKnight),
            3 => Some(ColoredPiece::WhiteBishop),
            4 => Some(ColoredPiece::WhiteRook),
            5 => Some(ColoredPiece::WhiteQueen),
            6 => Some(ColoredPiece::WhiteKing),
            9 => Some(ColoredPiece::BlackPawn),
            10 => Some(ColoredPiece::BlackKnight),
            11 => Some(ColoredPiece::BlackBishop),
            12 => Some(ColoredPiece::BlackRook),
            13 => Some(ColoredPiece::BlackQueen),
            14 => Some(ColoredPiece::BlackKing),
            _ => None,
        }
    }

    /// The code of the piece.
    pub fn encode(self) -> (r: u8)
        ensures
            r == self.code(),
    {
        match self {
            ColoredPiece::WhitePawn => 1,
            ColoredPiece::WhiteKnight => 2,
            ColoredPiece::WhiteBishop => 3,
            ColoredPiece::WhiteRook => 4,
            ColoredPiece::WhiteQueen => 5,
            ColoredPiece::WhiteKing => 6,
            ColoredPiece::BlackPawn => 9,
            ColoredPiece::BlackKnight => 10,
            ColoredPiece::BlackBishop => 11,
            ColoredPiece::BlackRook => 12,
            ColoredPiece::BlackQueen => 13,
            ColoredPiece::BlackKing => 14,
        }
    }

    /// The kind of the piece, from `PAWN` to `KING`.
    pub fn piece(self) -> (r: u8)
        ensures
            r == self.kind(),
            r < PIECE_KINDS,
    {
        match self {
            ColoredPiece::WhitePawn | ColoredPiece::BlackPawn => PAWN,
            ColoredPiece::WhiteKnight | ColoredPiece::BlackKnight => KNIGHT,
            ColoredPiece::WhiteBishop | ColoredPiece::BlackBishop => BISHOP,
            ColoredPiece::WhiteRook | ColoredPiece::BlackRook => ROOK,
            ColoredPiece::WhiteQueen | ColoredPiece::BlackQueen => QUEEN,
            ColoredPiece::WhiteKing | ColoredPiece::BlackKing => KING,
        }
    }

    /// The side that owns the piece.
    pub fn color(self) -> (r: Color)
        ensures
            r == self.side(),
    {
        match self {
            ColoredPiece::WhitePawn
            | ColoredPiece::WhiteKnight
            | ColoredPiece::WhiteBishop
            | ColoredPiece::WhiteRook
            | ColoredPiece::WhiteQueen
            | ColoredPiece::WhiteKing => Color::White,
            _ => Color::Black,
        }
    }
}

/// A piece is known by its code: two pieces with one code are the same piece.
pub proof fn lemma_code_determines_piece(a: ColoredPiece, b: ColoredPiece)
    ensures
        ColoredPiece::valid_code(a.code()),
        a.code() == b.code() ==> a == b,
        0 <= a.kind() < 6,
{
}

} // verus!
