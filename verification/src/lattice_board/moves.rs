use vstd::prelude::*;
use crate::lattice_board::piece::{piece_type_code, piece_type_of_code};
use crate::lattice_board::{PieceType, Square};

verus! {

/// The kind of move, stored in the high 4 bits of a [`Move`].
///
/// The encoding is bit-structured: `& 4` marks a capture (including en passant
/// and promotion-captures) and `& 8` marks a promotion, with the promoted piece
/// in the low 2 bits. Codes `6` and `7` are unused.
#[derive(Debug, Clone, Copy, PartialEq, Eq, Structural, Hash)]
pub enum MoveFlag {
    /// A non-capturing, non-special move.
    Quiet,
    /// A pawn's two-square advance (sets the en-passant target).
    DoublePawnPush,
    /// Kingside castle (O-O).
    KingCastle,
    /// Queenside castle (O-O-O).
    QueenCastle,
    /// A capture.
    Capture,
    /// An en-passant capture.
    EnPassant,
    /// Promotion to a knight.
    PromoKnight,
    /// Promotion to a bishop.
    PromoBishop,
    /// Promotion to a rook.
    PromoRook,
    /// Promotion to a queen.
    PromoQueen,
    /// Capture with promotion to a knight.
    PromoKnightCapture,
    /// Capture with promotion to a bishop.
    PromoBishopCapture,
    /// Capture with promotion to a rook.
    PromoRookCapture,
    /// Capture with promotion to a queen.
    PromoQueenCapture,
}

/// The 4-bit code of a flag.
pub open spec fn flag_code(f: MoveFlag) -> u8 {
    match f {
        MoveFlag::Quiet => 0,
        MoveFlag::DoublePawnPush => 1,
        MoveFlag::KingCastle => 2,
        MoveFlag::QueenCastle => 3,
        MoveFlag::Capture => 4,
        MoveFlag::EnPassant => 5,
        MoveFlag::PromoKnight => 8,
        MoveFlag::PromoBishop => 9,
        MoveFlag::PromoRook => 10,
        MoveFlag::PromoQueen => 11,
        MoveFlag::PromoKnightCapture => 12,
        MoveFlag::PromoBishopCapture => 13,
        MoveFlag::PromoRookCapture => 14,
        MoveFlag::PromoQueenCapture => 15,
    }
}

/// Whether `v` is the code of some flag: below 16 and neither 6 nor 7.
pub open spec fn valid_flag_code(v: int) -> bool {
    0 <= v < 16 && v != 6 && v != 7
}

/// The flag with code `v` (codes `6`, `7` and from `16` up have no flag and
/// map to `PromoQueenCapture`).
pub open spec fn flag_of_code(v: int) -> MoveFlag {
    if v == 0 {
        MoveFlag::Quiet
    } else if v == 1 {
        MoveFlag::DoublePawnPush
    } else if v == 2 {
        MoveFlag::KingCastle
    } else if v == 3 {
        MoveFlag::QueenCastle
    } else if v == 4 {
        MoveFlag::Capture
    } else if v == 5 {
        MoveFlag::EnPassant
    } else if v == 8 {
        MoveFlag::PromoKnight
    } else if v == 9 {
        MoveFlag::PromoBishop
    } else if v == 10 {
        MoveFlag::PromoRook
    } else if v == 11 {
        MoveFlag::PromoQueen
    } else if v == 12 {
        MoveFlag::PromoKnightCapture
    } else if v == 13 {
        MoveFlag::PromoBishopCapture
    } else if v == 14 {
        MoveFlag::PromoRookCapture
    } else {
        MoveFlag::PromoQueenCapture
    }
}

/// Whether the flag marks a capture (code bit 2).
pub open spec fn flag_is_capture(f: MoveFlag) -> bool {
    flag_code(f) == 4 || flag_code(f) == 5 || flag_code(f) >= 12
}

/// Whether the flag marks a promotion (code bit 3).
pub open spec fn flag_is_promotion(f: MoveFlag) -> bool {
    flag_code(f) >= 8
}

/// The piece a promotion flag promotes to: knight, bishop, rook, queen for
/// low code bits `0..4`.
pub open spec fn flag_promoted_piece(f: MoveFlag) -> Option<PieceType> {
    if flag_is_promotion(f) {
        Some(piece_type_of_code((flag_code(f) % 4 + 1) as u8))
    } else {
        None
    }
}

/// Every flag's code is valid and decodes back to the flag; every valid code
/// is the code of the flag it decodes to.
pub proof fn lemma_flag_code_roundtrip(f: MoveFlag, v: int)
    ensures
        valid_flag_code(flag_code(f) as int),
        flag_of_code(flag_code(f) as int) == f,
        valid_flag_code(v) ==> flag_code(flag_of_code(v)) == v,
{
}

impl MoveFlag {
    /// The raw 4-bit discriminant.
    pub fn as_u8(self) -> (v: u8)
        ensures
            v == flag_code(self),
            valid_flag_code(v as int),
    {
        match self {
            MoveFlag::Quiet => 0,
            MoveFlag::DoublePawnPush => 1,
            MoveFlag::KingCastle => 2,
            MoveFlag::QueenCastle => 3,
            MoveFlag::Capture => 4,
            MoveFlag::EnPassant => 5,
            MoveFlag::PromoKnight => 8,
            MoveFlag::PromoBishop => 9,
            MoveFlag::PromoRook => 10,
            MoveFlag::PromoQueen => 11,
            MoveFlag::PromoKnightCapture => 12,
            MoveFlag::PromoBishopCapture => 13,
            MoveFlag::PromoRookCapture => 14,
            MoveFlag::PromoQueenCapture => 15,
        }
    }

    /// Does this move capture (ordinary, en passant, or promotion-capture)?
    pub fn is_capture(self) -> (b: bool)
        ensures
            b == flag_is_capture(self),
    {
        let v = self.as_u8();
        let r = v & 4;
        proof {
            crate::bits::lemma_u8_bits(v);
        }
        r != 0
    }

    /// Is this a promotion (capturing or not)?
    pub fn is_promotion(self) -> (b: bool)
        ensures
            b == flag_is_promotion(self),
    {
        let v = self.as_u8();
        let r = v & 8;
        proof {
            crate::bits::lemma_u8_bits(v);
        }
        r != 0
    }

    /// The piece a promotion promotes to, or `None` for a non-promotion.
    pub fn promoted_piece(self) -> (p: Option<PieceType>)
        ensures
            p == flag_promoted_piece(self),
    {
        if self.is_promotion() {
            let v = self.as_u8();
            let low = v & 3;
            proof {
                crate::bits::lemma_u8_bits(v);
            }
            Some(PieceType::from_u8(low + 1))
        } else {
            None
        }
    }

    /// Build a flag from its raw discriminant; `6`, `7` and codes from `16`
    /// up are invalid.
    pub fn from_u8(value: u8) -> (f: MoveFlag)
        requires
            valid_flag_code(value as int),
        ensures
            flag_code(f) == value,
            f == flag_of_code(value as int),
    {
        match value {
            0 => MoveFlag::Quiet,
            1 => MoveFlag::DoublePawnPush,
            2 => MoveFlag::KingCastle,
            3 => MoveFlag::QueenCastle,
            4 => MoveFlag::Capture,
            5 => MoveFlag::EnPassant,
            8 => MoveFlag::PromoKnight,
            9 => MoveFlag::PromoBishop,
            10 => MoveFlag::PromoRook,
            11 => MoveFlag::PromoQueen,
            12 => MoveFlag::PromoKnightCapture,
            13 => MoveFlag::PromoBishopCapture,
            14 => MoveFlag::PromoRookCapture,
            _ => MoveFlag::PromoQueenCapture,
        }
    }
}

/// A move packed into 16 bits: source in bits 0..6, destination in 6..12,
/// [`MoveFlag`] code in 12..16. The value `0xFFFF` (h8h8 with the last flag)
/// is never a move.
#[derive(Debug, Clone, Copy, PartialEq, Eq, Structural, Hash)]
pub struct Move(u16);

/// The packed 16 bits of a move.
pub open spec fn move_bits(src: int, dst: int, flag: MoveFlag) -> int {
    src + 64 * dst + 4096 * flag_code(flag)
}

impl Move {
    #[verifier::type_invariant]
    spec fn inv(self) -> bool {
        &&& self.0 != 0xffff
        &&& valid_flag_code((self.0 / 4096) as int)
    }

    /// The packed 16-bit value.
    pub closed spec fn code(self) -> u16 {
        self.0
    }

    /// Source square index.
    pub open spec fn src_idx(self) -> int {
        self.code() as int % 64
    }

    /// Destination square index.
    pub open spec fn dst_idx(self) -> int {
        (self.code() as int / 64) % 64
    }

    /// The move's flag.
    pub open spec fn spec_flag(self) -> MoveFlag {
        flag_of_code(self.code() as int / 4096)
    }

    /// The null move, encoded as a1 -> a1 (value 0).
    pub fn null() -> (m: Move)
        ensures
            m.code() == 0,
            m.src_idx() == 0 && m.dst_idx() == 0,
            m.spec_flag() == MoveFlag::Quiet,
    {
        Move(0)
    }

    /// Pack a move from its source square, destination square, and kind.
    pub fn new(src: Square, dst: Square, flag: MoveFlag) -> (m: Move)
        requires
            !(src.idx() == 63 && dst.idx() == 63 && flag == MoveFlag::PromoQueenCapture),
        ensures
            m.code() == move_bits(src.idx(), dst.idx(), flag),
            m.src_idx() == src.idx(),
            m.dst_idx() == dst.idx(),
            m.spec_flag() == flag,
    {
        let s = src.index() as u16;
        let d = dst.index() as u16;
        let f = flag.as_u8() as u16;
        let bits = s | (d << 6) | (f << 12);
        proof {
            crate::bits::lemma_u16_bits(bits, s, d, f);
        }
        Move(bits)
    }

    /// The square the moving piece starts on.
    pub fn from(&self) -> (s: Square)
        ensures
            s.idx() == self.src_idx(),
    {
        let v = self.0;
        let i = v & 63;
        proof {
            crate::bits::lemma_u16_bits(v, 0, 0, 0);
        }
        Square::from_index(i as u8)
    }

    /// The square the moving piece ends on.
    pub fn to(&self) -> (s: Square)
        ensures
            s.idx() == self.dst_idx(),
    {
        let v = self.0;
        let i = (v >> 6) & 63;
        proof {
            crate::bits::lemma_u16_bits(v, 0, 0, 0);
        }
        Square::from_index(i as u8)
    }

    /// The packed 16-bit value.
    pub fn as_u16(self) -> (v: u16)
        ensures
            v == self.code(),
    {
        self.0
    }

    /// Is this the null move (source == destination)?
    pub fn is_null(self) -> (b: bool)
        ensures
            b == (self.src_idx() == self.dst_idx()),
    {
        self.from().index() == self.to().index()
    }

    /// The move's kind (capture, promotion, castle, ...).
    pub fn flag(&self) -> (f: MoveFlag)
        ensures
            f == self.spec_flag(),
    {
        proof {
            use_type_invariant(self);
        }
        let v = self.0;
        let c = v >> 12;
        proof {
            crate::bits::lemma_u16_bits(v, 0, 0, 0);
        }
        MoveFlag::from_u8(c as u8)
    }
}

/// A move's fields are recovered exactly from its packed value.
pub proof fn lemma_move_fields(src: int, dst: int, flag: MoveFlag)
    requires
        0 <= src < 64,
        0 <= dst < 64,
    ensures
        move_bits(src, dst, flag) % 64 == src,
        (move_bits(src, dst, flag) / 64) % 64 == dst,
        flag_of_code(move_bits(src, dst, flag) / 4096) == flag,
{
    let c = flag_code(flag) as int;
    assert(move_bits(src, dst, flag) == src + 64 * (dst + 64 * c));
    vstd::arithmetic::div_mod::lemma_fundamental_div_mod_converse(
        move_bits(src, dst, flag),
        64,
        dst + 64 * c,
        src,
    );
    vstd::arithmetic::div_mod::lemma_fundamental_div_mod_converse(dst + 64 * c, 64, c, dst);
    vstd::arithmetic::div_mod::lemma_fundamental_div_mod_converse(
        move_bits(src, dst, flag),
        4096,
        c,
        src + 64 * dst,
    );
}

} // verus!
