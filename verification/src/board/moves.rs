use vstd::prelude::*;
use crate::board::piece::kind_of;
use crate::board::{PieceType, Square};

verus! {

/// The encoded kind of a chess move (a 4-bit code): bit 2 marks a capture,
/// bit 3 a promotion, whose piece is knight, bishop, rook or queen by the low
/// two bits. Codes 6 and 7 are reserved.
#[derive(Debug, Clone, Copy, PartialEq, Eq, Structural)]
pub enum MoveType {
    /// A non-capturing move.
    Quiet,
    /// A two-square pawn advance.
    DoublePawnPush,
    /// Kingside castling.
    KingCastle,
    /// Queenside castling.
    QueenCastle,
    /// A capture.
    Capture,
    /// An en passant capture.
    EnPassant,
    /// Reserved move type 6.
    Reserved6,
    /// Reserved move type 7.
    Reserved7,
    /// A knight promotion.
    KnightPromo,
    /// A bishop promotion.
    BishopPromo,
    /// A rook promotion.
    RookPromo,
    /// A queen promotion.
    QueenPromo,
    /// A knight promotion capture.
    KnightPromoCap,
    /// A bishop promotion capture.
    BishopPromoCap,
    /// A rook promotion capture.
    RookPromoCap,
    /// A queen promotion capture.
    QueenPromoCap,
}

/// The 4-bit code of a move type.
pub open spec fn type_code(t: MoveType) -> u8 {
    match t {
        MoveType::Quiet => 0,
        MoveType::DoublePawnPush => 1,
        MoveType::KingCastle => 2,
        MoveType::QueenCastle => 3,
        MoveType::Capture => 4,
        MoveType::EnPassant => 5,
        MoveType::Reserved6 => 6,
        MoveType::Reserved7 => 7,
        MoveType::KnightPromo => 8,
        MoveType::BishopPromo => 9,
        MoveType::RookPromo => 10,
        MoveType::QueenPromo => 11,
        MoveType::KnightPromoCap => 12,
        MoveType::BishopPromoCap => 13,
        MoveType::RookPromoCap => 14,
        MoveType::QueenPromoCap => 15,
    }
}

/// The move type with code `n` (`0..16`).
pub open spec fn type_of_code(n: int) -> MoveType {
    if n == 0 {
        MoveType::Quiet
    } else if n == 1 {
        MoveType::DoublePawnPush
    } else if n == 2 {
        MoveType::KingCastle
    } else if n == 3 {
        MoveType::QueenCastle
    } else if n == 4 {
        MoveType::Capture
    } else if n == 5 {
        MoveType::EnPassant
    } else if n == 6 {
        MoveType::Reserved6
    } else if n == 7 {
        MoveType::Reserved7
    } else if n == 8 {
        MoveType::KnightPromo
    } else if n == 9 {
        MoveType::BishopPromo
    } else if n == 10 {
        MoveType::RookPromo
    } else if n == 11 {
        MoveType::QueenPromo
    } else if n == 12 {
        MoveType::KnightPromoCap
    } else if n == 13 {
        MoveType::BishopPromoCap
    } else if n == 14 {
        MoveType::RookPromoCap
    } else {
        MoveType::QueenPromoCap
    }
}

/// Whether a move type captures (code bit 2).
pub open spec fn type_is_capture(t: MoveType) -> bool {
    type_code(t) % 8 >= 4
}

/// Whether a move type promotes (code bit 3).
pub open spec fn type_is_promotion(t: MoveType) -> bool {
    type_code(t) >= 8
}

/// The promoted piece of a move type, if it promotes.
pub open spec fn type_promoted_piece(t: MoveType) -> Option<PieceType> {
    if type_is_promotion(t) {
        Some(kind_of(1 + type_code(t) % 4))
    } else {
        None
    }
}

/// Every code decodes to the type with that code, and every type's code
/// decodes back to it.
pub proof fn lemma_type_code_roundtrip(t: MoveType, n: int)
    ensures
        type_of_code(type_code(t) as int) == t,
        type_code(t) < 16,
        0 <= n < 16 ==> type_code(type_of_code(n)) == n,
{
}

impl MoveType {
    /// The 4-bit code.
    pub fn code(self) -> (n: u8)
        ensures
            n == type_code(self),
            n < 16,
    {
        match self {
            MoveType::Quiet => 0,
            MoveType::DoublePawnPush => 1,
            MoveType::KingCastle => 2,
            MoveType::QueenCastle => 3,
            MoveType::Capture => 4,
            MoveType::EnPassant => 5,
            MoveType::Reserved6 => 6,
            MoveType::Reserved7 => 7,
            MoveType::KnightPromo => 8,
            MoveType::BishopPromo => 9,
            MoveType::RookPromo => 10,
            MoveType::QueenPromo => 11,
            MoveType::KnightPromoCap => 12,
            MoveType::BishopPromoCap => 13,
            MoveType::RookPromoCap => 14,
            MoveType::QueenPromoCap => 15,
        }
    }

    /// Builds a move type from the low four bits of a byte.
    pub fn from_nibble(nibble: u8) -> (t: MoveType)
        ensures
            t == type_of_code(nibble as int % 16),
    {
        let n = nibble & 0x0f;
        proof {
            crate::bits::lemma_u8_pair(nibble, 0x0f);
            crate::bits::lemma_u8_bits(nibble);
        }
        match n {
            0 => MoveType::Quiet,
            1 => MoveType::DoublePawnPush,
            2 => MoveType::KingCastle,
            3 => MoveType::QueenCastle,
            4 => MoveType::Capture,
            5 => MoveType::EnPassant,
            6 => MoveType::Reserved6,
            7 => MoveType::Reserved7,
            8 => MoveType::KnightPromo,
            9 => MoveType::BishopPromo,
            10 => MoveType::RookPromo,
            11 => MoveType::QueenPromo,
            12 => MoveType::KnightPromoCap,
            13 => MoveType::BishopPromoCap,
            14 => MoveType::RookPromoCap,
            _ => MoveType::QueenPromoCap,
        }
    }

    /// Returns whether the move type captures a piece.
    pub fn is_capture(self) -> (b: bool)
        ensures
            b == type_is_capture(self),
    {
        let n = self.code();
        proof {
            crate::bits::lemma_u8_bits(n);
        }
        n & 0b0100 != 0
    }

    /// Returns whether the move type promotes a pawn.
    pub fn is_promotion(self) -> (b: bool)
        ensures
            b == type_is_promotion(self),
    {
        let n = self.code();
        proof {
            crate::bits::lemma_u8_bits(n);
        }
        n & 0b1000 != 0
    }

    /// Returns the promoted piece type, if this is a promotion.
    pub fn promoted_piece(self) -> (p: Option<PieceType>)
        ensures
            p == type_promoted_piece(self),
    {
        if self.is_promotion() {
            let n = self.code();
            proof {
                crate::bits::lemma_u8_bits(n);
            }
            Some(PieceType::from_index(1 + (n & 0b0011)))
        } else {
            None
        }
    }
}

/// A chess move packed into two bytes: move type in bits 12..16, origin in
/// 6..12, destination in 0..6. Origin and destination differ, so the value is
/// never zero.
#[derive(Debug, Clone, Copy, PartialEq, Eq, Structural)]
pub struct Move(u16);

/// Whether `v` is the packed value of some move: its squares differ and its
/// type is not reserved.
pub open spec fn valid_move_bits(v: u16) -> bool {
    &&& (v / 64) % 64 != v % 64
    &&& v / 4096 != 6
    &&& v / 4096 != 7
}

/// The packed value of a move.
pub open spec fn move_value(from: int, to: int, t: MoveType) -> int {
    4096 * type_code(t) + 64 * from + to
}

impl Move {
    #[verifier::type_invariant]
    spec fn inv(self) -> bool {
        &&& (self.0 / 64) % 64 != self.0 % 64
        &&& self.0 / 4096 != 6
        &&& self.0 / 4096 != 7
    }

    /// The packed value.
    pub closed spec fn value(self) -> u16 {
        self.0
    }

    /// Origin square index.
    pub open spec fn from_idx(self) -> int {
        (self.value() as int / 64) % 64
    }

    /// Destination square index.
    pub open spec fn to_idx(self) -> int {
        self.value() as int % 64
    }

    /// The move type.
    pub open spec fn spec_type(self) -> MoveType {
        type_of_code(self.value() as int / 4096)
    }

    /// A move's packed value is valid.
    pub fn to_bits(self) -> (b: u16)
        ensures
            b == self.value(),
            valid_move_bits(b),
    {
        proof {
            use_type_invariant(self);
        }
        self.0
    }

    /// The move with packed value `bits`, if it is a valid one.
    pub fn from_bits(bits: u16) -> (m: Option<Move>)
        ensures
            m is Some <==> valid_move_bits(bits),
            m matches Some(mv) ==> mv.value() == bits,
    {
        if (bits / 64) % 64 != bits % 64 && bits / 4096 != 6 && bits / 4096 != 7 {
            Some(Move(bits))
        } else {
            None
        }
    }

    /// A move is determined by its packed value.
    pub proof fn lemma_value(self, other: Move)
        ensures
            self.value() == other.value() ==> self == other,
    {
    }

    /// A move is determined by its origin, destination and type.
    pub proof fn lemma_fields(self, other: Move)
        requires
            self.from_idx() == other.from_idx(),
            self.to_idx() == other.to_idx(),
            self.spec_type() == other.spec_type(),
        ensures
            self == other,
    {
        let a = self.value();
        let b = other.value();
        lemma_type_code_roundtrip(self.spec_type(), a as int / 4096);
        lemma_type_code_roundtrip(other.spec_type(), b as int / 4096);
        assert(a / 4096 == b / 4096);
        assert(a == b) by (bit_vector)
            requires
                a / 4096 == b / 4096,
                (a / 64) % 64 == (b / 64) % 64,
                a % 64 == b % 64,
        ;
    }

    /// Builds a move from its origin, destination, and type; the squares
    /// must differ and the type must not be reserved.
    pub fn new(from: Square, to: Square, move_type: MoveType) -> (m: Move)
        requires
            from.idx() != to.idx(),
            move_type != MoveType::Reserved6,
            move_type != MoveType::Reserved7,
        ensures
            m.value() == move_value(from.idx(), to.idx(), move_type),
            m.from_idx() == from.idx(),
            m.to_idx() == to.idx(),
            m.spec_type() == move_type,
    {
        let t = move_type.code() as u16;
        let f = from.index() as u16;
        let d = to.index() as u16;
        proof {
            crate::bits::lemma_u16_bits(0, d, f, t);
            lemma_type_code_roundtrip(move_type, 0);
            crate::lattice_board::moves::lemma_move_fields(d as int, f as int, crate::lattice_board::MoveFlag::Quiet);
        }
        let value = d | (f << 6) | (t << 12);
        proof {
            let v = 4096 * t + 64 * f + d;
            assert(v / 4096 == t as int) by (nonlinear_arith)
                requires
                    v == 4096 * t + 64 * f + d,
                    f < 64,
                    d < 64,
            ;
            assert((v / 64) % 64 == f as int) by (nonlinear_arith)
                requires
                    v == 4096 * t + 64 * f + d,
                    f < 64,
                    d < 64,
            ;
            assert(v % 64 == d as int) by (nonlinear_arith)
                requires
                    v == 4096 * t + 64 * f + d,
                    f < 64,
                    d < 64,
            ;
        }
        Move(value)
    }

    /// Returns the origin square.
    pub fn from(self) -> (s: Square)
        ensures
            s.idx() == self.from_idx(),
    {
        let v = self.0;
        proof {
            crate::bits::lemma_u16_bits(v, 0, 0, 0);
        }
        Square::new_unchecked(((v >> 6) & 0x3f) as u8)
    }

    /// Returns the destination square.
    pub fn to(self) -> (s: Square)
        ensures
            s.idx() == self.to_idx(),
    {
        let v = self.0;
        proof {
            crate::bits::lemma_u16_bits(v, 0, 0, 0);
        }
        Square::new_unchecked((v & 0x3f) as u8)
    }

    /// Returns the encoded move type.
    pub fn move_type(self) -> (t: MoveType)
        ensures
            t == self.spec_type(),
    {
        let v = self.0;
        proof {
            crate::bits::lemma_u16_bits(v, 0, 0, 0);
            assert((v >> 12) as u8 as int % 16 == v as int / 4096);
        }
        MoveType::from_nibble((v >> 12) as u8)
    }

    /// Returns whether the move captures a piece.
    pub fn is_capture(self) -> (b: bool)
        ensures
            b == type_is_capture(self.spec_type()),
    {
        self.move_type().is_capture()
    }

    /// Returns whether the move promotes a pawn.
    pub fn is_promotion(self) -> (b: bool)
        ensures
            b == type_is_promotion(self.spec_type()),
    {
        self.move_type().is_promotion()
    }

    /// Returns the promoted piece type, if this is a promotion.
    pub fn promoted_piece(self) -> (p: Option<PieceType>)
        ensures
            p == type_promoted_piece(self.spec_type()),
    {
        self.move_type().promoted_piece()
    }
}

} // verus!
