use vstd::prelude::*;

verus! {

/// One of the two players / piece colors.
#[derive(Debug, Clone, Copy, PartialEq, Eq, Structural, Ord, PartialOrd, Hash)]
pub enum Color {
    /// The side moving up the board (ranks 1->8).
    White,
    /// The side moving down the board (ranks 8->1).
    Black,
}

/// The raw discriminant of a color (`White = 0`, `Black = 1`).
pub open spec fn color_code(c: Color) -> u8 {
    match c {
        Color::White => 0,
        Color::Black => 1,
    }
}

/// The opposing color.
pub open spec fn opponent(c: Color) -> Color {
    match c {
        Color::White => Color::Black,
        Color::Black => Color::White,
    }
}

impl Color {
    /// Build a color from its raw discriminant (`0 = White`, `1 = Black`).
    pub fn from_u8(value: u8) -> (c: Color)
        requires
            value < 2,
        ensures
            color_code(c) == value,
    {
        match value {
            0 => Color::White,
            _ => Color::Black,
        }
    }

    /// The raw discriminant (`White = 0`, `Black = 1`).
    pub fn as_u8(self) -> (v: u8)
        ensures
            v == color_code(self),
    {
        match self {
            Color::White => 0,
            Color::Black => 1,
        }
    }

    /// The opposing color.
    pub fn flip(self) -> (c: Color)
        ensures
            c == opponent(self),
            c != self,
    {
        match self {
            Color::White => Color::Black,
            Color::Black => Color::White,
        }
    }
}

/// Flipping a color twice gives it back, and the raw discriminant
/// round-trips through `from_u8`.
pub proof fn lemma_color_laws(c: Color)
    ensures
        opponent(opponent(c)) == c,
        color_code(opponent(c)) == 1 - color_code(c),
        color_code(c) < 2,
{
}

/// A piece kind, independent of color.
#[derive(Debug, Clone, Copy, PartialEq, Eq, Structural, Ord, PartialOrd, Hash)]
pub enum PieceType {
    /// Pawn.
    Pawn,
    /// Knight.
    Knight,
    /// Bishop.
    Bishop,
    /// Rook.
    Rook,
    /// Queen.
    Queen,
    /// King.
    King,
}

/// The raw discriminant of a piece type (`Pawn = 0` ... `King = 5`).
pub open spec fn piece_type_code(t: PieceType) -> u8 {
    match t {
        PieceType::Pawn => 0,
        PieceType::Knight => 1,
        PieceType::Bishop => 2,
        PieceType::Rook => 3,
        PieceType::Queen => 4,
        PieceType::King => 5,
    }
}

/// The piece type with raw discriminant `v`; values from 5 up map to `King`.
pub open spec fn piece_type_of_code(v: u8) -> PieceType {
    if v == 0 {
        PieceType::Pawn
    } else if v == 1 {
        PieceType::Knight
    } else if v == 2 {
        PieceType::Bishop
    } else if v == 3 {
        PieceType::Rook
    } else if v == 4 {
        PieceType::Queen
    } else {
        PieceType::King
    }
}

impl PieceType {
    /// Build a piece type from its raw discriminant (`0 = Pawn` ... `5 = King`).
    pub fn from_u8(value: u8) -> (t: PieceType)
        requires
            value < 6,
        ensures
            piece_type_code(t) == value,
            t == piece_type_of_code(value),
    {
        match value {
            0 => PieceType::Pawn,
            1 => PieceType::Knight,
            2 => PieceType::Bishop,
            3 => PieceType::Rook,
            4 => PieceType::Queen,
            _ => PieceType::King,
        }
    }

    /// The raw discriminant (`Pawn = 0` ... `King = 5`).
    pub fn as_u8(self) -> (v: u8)
        ensures
            v == piece_type_code(self),
            v < 6,
    {
        match self {
            PieceType::Pawn => 0,
            PieceType::Knight => 1,
            PieceType::Bishop => 2,
            PieceType::Rook => 3,
            PieceType::Queen => 4,
            PieceType::King => 5,
        }
    }
}

/// Every piece type's code decodes back to it, and every code below six is
/// the code of the type it decodes to.
pub proof fn lemma_piece_type_code_roundtrip(t: PieceType, v: u8)
    ensures
        piece_type_of_code(piece_type_code(t)) == t,
        v < 6 ==> piece_type_code(piece_type_of_code(v)) == v,
{
}

/// A colored piece packed into one byte as `(piece_type << 1) | color`.
///
/// White pieces are even, black odd; a valid value is always below 12.
#[derive(Debug, Clone, Copy, PartialEq, Eq, Structural, Ord, PartialOrd, Hash)]
pub struct Piece(u8);

/// The packed byte of a piece of `color` and type `t`.
pub open spec fn piece_code(color: Color, t: PieceType) -> u8 {
    (2 * piece_type_code(t) + color_code(color)) as u8
}

impl Piece {
    #[verifier::type_invariant]
    spec fn inv(self) -> bool {
        self.0 < 12
    }

    /// The packed `(piece_type << 1) | color` byte.
    pub closed spec fn code(self) -> u8 {
        self.0
    }

    /// The piece whose packed byte is `v`.
    pub closed spec fn from_code(v: u8) -> Piece {
        Piece(v)
    }

    /// A piece is its packed byte.
    pub proof fn lemma_code(self, other: Piece, v: u8)
        ensures
            Piece::from_code(v).code() == v,
            self.code() == other.code() ==> self == other,
            Piece::from_code(self.code()) == self,
    {
    }

    /// The color of the piece this byte describes.
    pub open spec fn spec_color(self) -> Color {
        if self.code() % 2 == 0 {
            Color::White
        } else {
            Color::Black
        }
    }

    /// The type of the piece this byte describes.
    pub open spec fn spec_piece(self) -> PieceType {
        piece_type_of_code(self.code() / 2)
    }

    /// A piece of `color` and `piece` type.
    pub fn new(color: Color, piece: PieceType) -> (p: Piece)
        ensures
            p.code() == piece_code(color, piece),
            p == Piece::from_code(piece_code(color, piece)),
            p.spec_color() == color,
            p.spec_piece() == piece,
    {
        let c = color.as_u8();
        let t = piece.as_u8();
        let v = c | (t << 1);
        proof {
            crate::bits::lemma_u8_pair(c, t);
        }
        Piece(v)
    }

    /// Build a piece from its packed `(piece_type << 1) | color` byte (`0..12`).
    pub fn from_u8(value: u8) -> (p: Piece)
        requires
            value < 12,
        ensures
            p.code() == value,
            p == Piece::from_code(value),
    {
        Piece(value)
    }

    /// The packed `(piece_type << 1) | color` byte (`0..12`).
    pub fn as_u8(self) -> (v: u8)
        ensures
            v == self.code(),
            v < 12,
    {
        proof {
            use_type_invariant(self);
        }
        self.0
    }

    /// This piece's color.
    pub fn color(self) -> (c: Color)
        ensures
            c == self.spec_color(),
    {
        let v = self.as_u8();
        let low = v & 1;
        proof {
            crate::bits::lemma_u8_bits(v);
        }
        Color::from_u8(low)
    }

    /// This piece's type, ignoring color.
    pub fn piece(self) -> (t: PieceType)
        ensures
            t == self.spec_piece(),
    {
        let v = self.as_u8();
        let high = v >> 1;
        proof {
            crate::bits::lemma_u8_bits(v);
        }
        PieceType::from_u8(high)
    }

    /// Is this a white piece?
    pub fn is_white(self) -> (b: bool)
        ensures
            b == (self.spec_color() == Color::White),
    {
        self.color() == Color::White
    }

    /// Is this a black piece?
    pub fn is_black(self) -> (b: bool)
        ensures
            b == (self.spec_color() == Color::Black),
    {
        self.color() == Color::Black
    }

    /// Is this a pawn (of either color)?
    pub fn is_pawn(self) -> (b: bool)
        ensures
            b == (self.spec_piece() == PieceType::Pawn),
    {
        self.piece() == PieceType::Pawn
    }

    /// Is this a knight (of either color)?
    pub fn is_knight(self) -> (b: bool)
        ensures
            b == (self.spec_piece() == PieceType::Knight),
    {
        self.piece() == PieceType::Knight
    }

    /// Is this a bishop (of either color)?
    pub fn is_bishop(self) -> (b: bool)
        ensures
            b == (self.spec_piece() == PieceType::Bishop),
    {
        self.piece() == PieceType::Bishop
    }

    /// Is this a rook (of either color)?
    pub fn is_rook(self) -> (b: bool)
        ensures
            b == (self.spec_piece() == PieceType::Rook),
    {
        self.piece() == PieceType::Rook
    }

    /// Is this a queen (of either color)?
    pub fn is_queen(self) -> (b: bool)
        ensures
            b == (self.spec_piece() == PieceType::Queen),
    {
        self.piece() == PieceType::Queen
    }

    /// Is this a king (of either color)?
    pub fn is_king(self) -> (b: bool)
        ensures
            b == (self.spec_piece() == PieceType::King),
    {
        self.piece() == PieceType::King
    }
}

/// A piece is determined by its color and type, and every valid byte is the
/// byte of the color and type it decodes to.
pub proof fn lemma_piece_code_roundtrip(p: Piece, c: Color, t: PieceType)
    requires
        p.code() < 12,
    ensures
        piece_code(p.spec_color(), p.spec_piece()) == p.code(),
        piece_code(c, t) < 12,
        piece_code(c, t) % 2 == color_code(c),
        piece_code(c, t) / 2 == piece_type_code(t),
{
}

} // verus!
