use vstd::prelude::*;

verus! {

/// A chess side.
#[derive(Debug, Clone, Copy, PartialEq, Eq, Structural)]
pub enum Color {
    /// White.
    White,
    /// Black.
    Black,
}

/// The discriminant of a color (`White = 0`, `Black = 1`).
pub open spec fn color_index(c: Color) -> u8 {
    match c {
        Color::White => 0,
        Color::Black => 1,
    }
}

/// The opposing side.
pub open spec fn other(c: Color) -> Color {
    match c {
        Color::White => Color::Black,
        Color::Black => Color::White,
    }
}

impl Color {
    /// Returns the opposing side.
    pub fn flip(self) -> (c: Color)
        ensures
            c == other(self),
            c != self,
            other(c) == self,
    {
        match self {
            Color::White => Color::Black,
            Color::Black => Color::White,
        }
    }

    /// The discriminant (`White = 0`, `Black = 1`).
    pub fn index(self) -> (i: u8)
        ensures
            i == color_index(self),
            i < 2,
    {
        match self {
            Color::White => 0,
            Color::Black => 1,
        }
    }
}

/// A piece type independent of color.
#[derive(Debug, Clone, Copy, PartialEq, Eq, Structural)]
pub enum PieceType {
    /// A pawn.
    Pawn,
    /// A knight.
    Knight,
    /// A bishop.
    Bishop,
    /// A rook.
    Rook,
    /// A queen.
    Queen,
    /// A king.
    King,
}

/// The discriminant of a piece type (`Pawn = 0` ... `King = 5`).
pub open spec fn kind_index(t: PieceType) -> u8 {
    match t {
        PieceType::Pawn => 0,
        PieceType::Knight => 1,
        PieceType::Bishop => 2,
        PieceType::Rook => 3,
        PieceType::Queen => 4,
        PieceType::King => 5,
    }
}

/// The piece type with discriminant `i` (`0..6`).
pub open spec fn kind_of(i: int) -> PieceType {
    if i == 0 {
        PieceType::Pawn
    } else if i == 1 {
        PieceType::Knight
    } else if i == 2 {
        PieceType::Bishop
    } else if i == 3 {
        PieceType::Rook
    } else if i == 4 {
        PieceType::Queen
    } else {
        PieceType::King
    }
}

impl PieceType {
    /// The piece type with discriminant `index` (`0..6`).
    pub fn from_index(index: u8) -> (t: PieceType)
        requires
            index < 6,
        ensures
            t == kind_of(index as int),
            kind_index(t) == index,
    {
        match index {
            0 => PieceType::Pawn,
            1 => PieceType::Knight,
            2 => PieceType::Bishop,
            3 => PieceType::Rook,
            4 => PieceType::Queen,
            _ => PieceType::King,
        }
    }

    /// The discriminant (`Pawn = 0` ... `King = 5`).
    pub fn index(self) -> (i: u8)
        ensures
            i == kind_index(self),
            i < 6,
            kind_of(i as int) == self,
    {
        match self {
            PieceType::Pawn => 0,
            PieceType::Knight => 1,
            PieceType::Bishop => 2,
            PieceType::Rook => 3,
            PieceType::Queen => 4,
            PieceType::King => 5,
        }
    }
}

/// A color and piece type packed into one byte: `color << 3 | piece_type`,
/// so white pieces are `0..6` and black ones `8..14`.
#[derive(Debug, Clone, Copy, PartialEq, Eq, Structural)]
pub struct Piece(u8);

/// The packed byte of a piece.
pub open spec fn piece_byte(c: Color, t: PieceType) -> u8 {
    (8 * color_index(c) + kind_index(t)) as u8
}

impl Piece {
    #[verifier::type_invariant]
    spec fn inv(self) -> bool {
        self.0 % 8 < 6 && self.0 < 16
    }

    /// The packed byte.
    pub closed spec fn byte(self) -> u8 {
        self.0
    }

    /// The piece of color `c` and type `t`.
    pub closed spec fn of(c: Color, t: PieceType) -> Piece {
        Piece(piece_byte(c, t))
    }

    /// The piece's color.
    pub open spec fn spec_color(self) -> Color {
        if self.byte() / 8 == 0 {
            Color::White
        } else {
            Color::Black
        }
    }

    /// The piece's type.
    pub open spec fn spec_kind(self) -> PieceType {
        kind_of(self.byte() as int % 8)
    }

    /// A piece is determined by its byte, and `of` has the byte, color and
    /// type it is built from.
    pub proof fn lemma_of(self, other: Piece, c: Color, t: PieceType)
        ensures
            Piece::of(c, t).byte() == piece_byte(c, t),
            Piece::of(c, t).spec_color() == c,
            Piece::of(c, t).spec_kind() == t,
            self.byte() == other.byte() ==> self == other,
            self.spec_color() == c && self.spec_kind() == t && self.byte() < 16 && self.byte() % 8
                < 6 ==> self == Piece::of(c, t),
    {
    }

    /// Builds a piece from its color and type.
    pub fn new(color: Color, piece_type: PieceType) -> (p: Piece)
        ensures
            p == Piece::of(color, piece_type),
            p.spec_color() == color,
            p.spec_kind() == piece_type,
    {
        let c = color.index();
        let t = piece_type.index();
        proof {
            crate::bits::lemma_u8_pair(c, t);
        }
        Piece(((c & 1) << 3) | (t & 7))
    }

    /// Returns the piece color.
    pub fn color(self) -> (c: Color)
        ensures
            c == self.spec_color(),
    {
        let i = self.index();
        proof {
            crate::bits::lemma_u8_bits(i);
        }
        if i >> 3 == 0 {
            Color::White
        } else {
            Color::Black
        }
    }

    /// Returns the piece type.
    pub fn piece_type(self) -> (t: PieceType)
        ensures
            t == self.spec_kind(),
    {
        proof {
            use_type_invariant(self);
        }
        let i = self.index();
        proof {
            crate::bits::lemma_u8_bits(i);
        }
        PieceType::from_index(i & 7)
    }

    /// Returns the same piece with the opposing color.
    pub fn flip_color(self) -> (p: Piece)
        ensures
            p.spec_color() == other(self.spec_color()),
            p.spec_kind() == self.spec_kind(),
            p == Piece::of(other(self.spec_color()), self.spec_kind()),
    {
        proof {
            use_type_invariant(self);
        }
        let i = self.index();
        proof {
            crate::bits::lemma_u8_flip(i);
        }
        Piece((i ^ 8) & 15)
    }

    /// Returns the packed index for a 16-entry piece table.
    pub fn index(self) -> (i: u8)
        ensures
            i == self.byte(),
            i < 16,
            i % 8 < 6,
    {
        proof {
            use_type_invariant(self);
        }
        self.0
    }
}

/// Flipping a piece's color twice gives the piece back.
pub proof fn lemma_flip_color_involution(c: Color, t: PieceType)
    ensures
        Piece::of(other(other(c)), t) == Piece::of(c, t),
{
}

} // verus!
