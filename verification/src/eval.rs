//! Static evaluation weights and the incremental material and
//! piece-square score.

use vstd::prelude::*;
use crate::board::piece::kind_index;
use crate::board::{Color, Piece, Square};

pub mod position;
pub mod sums;

verus! {

/// Midgame piece-square tables by piece type, with material folded in, in
/// reading order (index 0 is a8, 63 is h1).
pub const MG_TABLE: [[i32; 64]; 6] = [
    [
        82, 82, 82, 82, 82, 82, 82, 82,
        180, 216, 143, 177, 150, 208, 116, 71,
        76, 89, 108, 113, 147, 138, 107, 62,
        68, 95, 88, 103, 105, 94, 99, 59,
        55, 80, 77, 94, 99, 88, 92, 57,
        56, 78, 78, 72, 85, 85, 115, 70,
        47, 81, 62, 59, 67, 106, 120, 60,
        82, 82, 82, 82, 82, 82, 82, 82,
    ],
    [
        170, 248, 303, 288, 398, 240, 322, 230,
        264, 296, 409, 373, 360, 399, 344, 320,
        290, 397, 374, 402, 421, 466, 410, 381,
        328, 354, 356, 390, 374, 406, 355, 359,
        324, 341, 353, 350, 365, 356, 358, 329,
        314, 328, 349, 347, 356, 354, 362, 321,
        308, 284, 325, 334, 336, 355, 323, 318,
        232, 316, 279, 304, 320, 309, 318, 314,
    ],
    [
        336, 369, 283, 328, 340, 323, 372, 357,
        339, 381, 347, 352, 395, 424, 383, 318,
        349, 402, 408, 405, 400, 415, 402, 363,
        361, 370, 384, 415, 402, 402, 372, 363,
        359, 378, 378, 391, 399, 377, 375, 369,
        365, 380, 380, 380, 379, 392, 383, 375,
        369, 380, 381, 365, 372, 386, 398, 366,
        332, 362, 351, 344, 352, 353, 326, 344,
    ],
    [
        509, 519, 509, 528, 540, 486, 508, 520,
        504, 509, 535, 539, 557, 544, 503, 521,
        472, 496, 503, 513, 494, 522, 538, 493,
        453, 466, 484, 503, 501, 512, 469, 457,
        441, 451, 465, 476, 486, 470, 483, 454,
        432, 452, 461, 460, 480, 477, 472, 444,
        433, 461, 457, 468, 476, 488, 471, 406,
        458, 464, 478, 494, 493, 484, 440, 451,
    ],
    [
        997, 1025, 1054, 1037, 1084, 1069, 1068, 1070,
        1001, 986, 1020, 1026, 1009, 1082, 1053, 1079,
        1012, 1008, 1032, 1033, 1054, 1081, 1072, 1082,
        998, 998, 1009, 1009, 1024, 1042, 1023, 1026,
        1016, 999, 1016, 1015, 1023, 1021, 1028, 1022,
        1011, 1027, 1014, 1023, 1020, 1027, 1039, 1030,
        990, 1017, 1036, 1027, 1033, 1040, 1022, 1026,
        1024, 1007, 1016, 1035, 1010, 1000, 994, 975,
    ],
    [
        -65, 23, 16, -15, -56, -34, 2, 13,
        29, -1, -20, -7, -8, -4, -38, -29,
        -9, 24, 2, -16, -20, 6, 22, -22,
        -17, -20, -12, -27, -30, -25, -14, -36,
        -49, -1, -27, -39, -46, -44, -33, -51,
        -14, -14, -22, -46, -44, -30, -15, -27,
        1, 7, -8, -64, -43, -16, 9, 8,
        -15, 36, 12, -54, 8, -28, 24, 14,
    ],
];

/// Endgame piece-square tables by piece type, with material folded in, in
/// reading order.
pub const EG_TABLE: [[i32; 64]; 6] = [
    [
        94, 94, 94, 94, 94, 94, 94, 94,
        272, 267, 252, 228, 241, 226, 259, 281,
        188, 194, 179, 161, 150, 147, 176, 178,
        126, 118, 107, 99, 92, 98, 111, 111,
        107, 103, 91, 87, 87, 86, 97, 93,
        98, 101, 88, 95, 94, 89, 93, 86,
        107, 102, 102, 104, 107, 94, 96, 87,
        94, 94, 94, 94, 94, 94, 94, 94,
    ],
    [
        223, 243, 268, 253, 250, 254, 218, 182,
        256, 273, 256, 279, 272, 256, 257, 229,
        257, 261, 291, 290, 280, 272, 262, 240,
        264, 284, 303, 303, 303, 292, 289, 263,
        263, 275, 297, 306, 297, 298, 285, 263,
        258, 278, 280, 296, 291, 278, 261, 259,
        239, 261, 271, 276, 279, 261, 258, 237,
        252, 230, 258, 266, 259, 263, 231, 217,
    ],
    [
        283, 276, 286, 289, 290, 288, 280, 273,
        289, 293, 304, 285, 294, 284, 293, 283,
        299, 289, 297, 296, 295, 303, 297, 301,
        294, 306, 309, 306, 311, 307, 300, 299,
        291, 300, 310, 316, 304, 307, 294, 288,
        285, 294, 305, 307, 310, 300, 290, 282,
        283, 279, 290, 296, 301, 288, 282, 270,
        274, 288, 274, 292, 288, 281, 292, 280,
    ],
    [
        525, 522, 530, 527, 524, 524, 520, 517,
        523, 525, 525, 523, 509, 515, 520, 515,
        519, 519, 519, 517, 516, 509, 507, 509,
        516, 515, 525, 513, 514, 513, 511, 514,
        515, 517, 520, 516, 507, 506, 504, 501,
        508, 512, 507, 511, 505, 500, 504, 496,
        506, 506, 512, 514, 503, 503, 501, 509,
        503, 514, 515, 511, 507, 499, 516, 492,
    ],
    [
        927, 958, 958, 963, 963, 955, 946, 956,
        919, 956, 968, 977, 994, 961, 966, 936,
        916, 942, 945, 985, 983, 971, 955, 945,
        939, 958, 960, 981, 993, 976, 993, 972,
        918, 964, 955, 983, 967, 970, 975, 959,
        920, 909, 951, 942, 945, 953, 946, 941,
        914, 913, 906, 920, 920, 913, 900, 904,
        903, 908, 914, 893, 931, 904, 916, 895,
    ],
    [
        -74, -35, -18, -18, -11, 15, 4, -17,
        -12, 17, 14, 17, 17, 38, 23, 11,
        10, 17, 23, 15, 20, 45, 44, 13,
        -8, 22, 24, 27, 26, 33, 26, 3,
        -18, -4, 21, 24, 27, 23, 9, -11,
        -19, -3, 11, 21, 23, 16, 7, -9,
        -27, -11, 4, 13, 14, 4, -5, -17,
        -53, -34, -21, -11, -28, -14, -24, -43,
    ],
];

/// Game phase weight per piece type, summing to 24 at the start position.
pub const PHASE_WEIGHT: [i32; 6] = [0, 1, 1, 2, 4, 0];

/// The phase of a full set of pieces.
pub const TOTAL_PHASE: i32 = 24;

/// Bonus for having the move.
pub const TEMPO: i32 = 17;

/// Midgame centipawns per mobility square, indexed by piece type.
pub const MOBILITY_MG: [i32; 6] = [0, 4, 4, 2, 1, 0];

/// Endgame centipawns per mobility square, indexed by piece type.
pub const MOBILITY_EG: [i32; 6] = [0, 4, 5, 4, 6, 0];

/// Midgame bonus for a rook on an open file.
pub const ROOK_OPEN_MG: i32 = 26;

/// Endgame bonus for a rook on an open file.
pub const ROOK_OPEN_EG: i32 = 12;

/// Midgame bonus for a rook on a half-open file.
pub const ROOK_SEMI_MG: i32 = 11;

/// Endgame bonus for a rook on a half-open file.
pub const ROOK_SEMI_EG: i32 = 6;

/// Midgame passed-pawn bonus by ranks advanced.
pub const PASSED_MG: [i32; 7] = [0, 2, 6, 14, 28, 50, 80];

/// Endgame passed-pawn bonus by ranks advanced.
pub const PASSED_EG: [i32; 7] = [0, 8, 16, 30, 55, 95, 145];

/// Midgame penalty for an isolated pawn.
pub const ISOLATED_MG: i32 = -12;

/// Endgame penalty for an isolated pawn.
pub const ISOLATED_EG: i32 = -18;

/// Midgame penalty for a doubled pawn.
pub const DOUBLED_MG: i32 = -8;

/// Endgame penalty for a doubled pawn.
pub const DOUBLED_EG: i32 = -18;

/// Complete set of linear static-evaluation weights. Piece-square entries
/// already include material.
#[derive(Debug, Clone, PartialEq, Eq)]
pub struct EvalWeights {
    /// Midgame piece-square tables.
    pub mg_table: [[i32; 64]; 6],
    /// Endgame piece-square tables.
    pub eg_table: [[i32; 64]; 6],
    /// Midgame mobility weights.
    pub mobility_mg: [i32; 6],
    /// Endgame mobility weights.
    pub mobility_eg: [i32; 6],
    /// Midgame open-file rook bonus.
    pub rook_open_mg: i32,
    /// Endgame open-file rook bonus.
    pub rook_open_eg: i32,
    /// Midgame half-open-file rook bonus.
    pub rook_semi_mg: i32,
    /// Endgame half-open-file rook bonus.
    pub rook_semi_eg: i32,
    /// Midgame passed-pawn bonuses.
    pub passed_mg: [i32; 7],
    /// Endgame passed-pawn bonuses.
    pub passed_eg: [i32; 7],
    /// Midgame isolated-pawn penalty.
    pub isolated_mg: i32,
    /// Endgame isolated-pawn penalty.
    pub isolated_eg: i32,
    /// Midgame doubled-pawn penalty.
    pub doubled_mg: i32,
    /// Endgame doubled-pawn penalty.
    pub doubled_eg: i32,
    /// Side-to-move bonus.
    pub tempo: i32,
}

/// The engine's weights.
pub fn weights() -> (w: EvalWeights)
    ensures
        w.mg_table == MG_TABLE,
        w.eg_table == EG_TABLE,
        w.mobility_mg == MOBILITY_MG,
        w.mobility_eg == MOBILITY_EG,
        w.passed_mg == PASSED_MG,
        w.passed_eg == PASSED_EG,
        w.rook_open_mg == ROOK_OPEN_MG,
        w.rook_open_eg == ROOK_OPEN_EG,
        w.rook_semi_mg == ROOK_SEMI_MG,
        w.rook_semi_eg == ROOK_SEMI_EG,
        w.isolated_mg == ISOLATED_MG,
        w.isolated_eg == ISOLATED_EG,
        w.doubled_mg == DOUBLED_MG,
        w.doubled_eg == DOUBLED_EG,
        w.tempo == TEMPO,
{
    EvalWeights {
        mg_table: MG_TABLE,
        eg_table: EG_TABLE,
        mobility_mg: MOBILITY_MG,
        mobility_eg: MOBILITY_EG,
        rook_open_mg: ROOK_OPEN_MG,
        rook_open_eg: ROOK_OPEN_EG,
        rook_semi_mg: ROOK_SEMI_MG,
        rook_semi_eg: ROOK_SEMI_EG,
        passed_mg: PASSED_MG,
        passed_eg: PASSED_EG,
        isolated_mg: ISOLATED_MG,
        isolated_eg: ISOLATED_EG,
        doubled_mg: DOUBLED_MG,
        doubled_eg: DOUBLED_EG,
        tempo: TEMPO,
    }
}

/// The table index and score sign of a piece on square `s`: tables are in
/// reading order, so White's squares are mirrored, and Black scores negative.
pub open spec fn terms_of(piece: Piece, s: int) -> (int, int, int) {
    if piece.spec_color() == Color::White {
        (kind_index(piece.spec_kind()) as int, 8 * (7 - s / 8) + s % 8, 1)
    } else {
        (kind_index(piece.spec_kind()) as int, s, -1)
    }
}

/// Table index and score sign for a piece on a square.
pub fn terms(piece: Piece, square: Square) -> (t: (usize, usize, i32))
    ensures
        (t.0 as int, t.1 as int, t.2 as int) == terms_of(piece, square.idx()),
        t.0 < 6,
        t.1 < 64,
{
    let (index, sign) = match piece.color() {
        Color::White => (square.flip_rank().index() as usize, 1),
        Color::Black => (square.index() as usize, -1),
    };
    (piece.piece_type().index() as usize, index, sign)
}

/// Running midgame score, endgame score and raw game phase.
#[derive(Debug, Clone, Copy, Default, PartialEq, Eq)]
pub struct Accumulator {
    /// Midgame score, White positive.
    pub mg: i32,
    /// Endgame score, White positive.
    pub eg: i32,
    /// Sum of the phase weights of the pieces.
    pub phase: i32,
}

/// `v` with `sign`: itself when positive, negated otherwise.
pub open spec fn signed(v: int, sign: int) -> int {
    if sign > 0 {
        v
    } else {
        -v
    }
}

/// The fields of `acc` with the terms of `piece` on square `s` applied
/// (`times` positive) or withdrawn (otherwise).
pub open spec fn applied(acc: Accumulator, piece: Piece, s: int, times: int) -> (int, int, int) {
    let (k, i, sign) = terms_of(piece, s);
    let dm = signed(MG_TABLE@[k]@[i] as int, sign);
    let de = signed(EG_TABLE@[k]@[i] as int, sign);
    let dp = PHASE_WEIGHT@[k] as int;
    if times > 0 {
        (acc.mg + dm, acc.eg + de, acc.phase + dp)
    } else {
        (acc.mg - dm, acc.eg - de, acc.phase - dp)
    }
}

/// Whether applying a piece's terms `times` times keeps every field in range.
pub open spec fn fits(acc: Accumulator, piece: Piece, s: int, times: int) -> bool {
    let r = applied(acc, piece, s, times);
    &&& i32::MIN <= r.0 <= i32::MAX
    &&& i32::MIN <= r.1 <= i32::MAX
    &&& i32::MIN <= r.2 <= i32::MAX
}

impl Accumulator {
    /// Applies the terms for a piece standing on a square.
    pub fn add(&mut self, piece: Piece, square: Square)
        requires
            fits(*old(self), piece, square.idx(), 1),
        ensures
            (final(self).mg as int, final(self).eg as int, final(self).phase as int) == applied(
                *old(self),
                piece,
                square.idx(),
                1,
            ),
    {
        let (kind, index, sign) = terms(piece, square);
        let (m, e) = (MG_TABLE[kind][index], EG_TABLE[kind][index]);
        if sign > 0 {
            self.mg = self.mg + m;
            self.eg = self.eg + e;
        } else {
            self.mg = self.mg - m;
            self.eg = self.eg - e;
        }
        self.phase = self.phase + PHASE_WEIGHT[kind];
    }

    /// Withdraws the terms for a piece leaving a square.
    pub fn remove(&mut self, piece: Piece, square: Square)
        requires
            fits(*old(self), piece, square.idx(), -1),
        ensures
            (final(self).mg as int, final(self).eg as int, final(self).phase as int) == applied(
                *old(self),
                piece,
                square.idx(),
                -1,
            ),
    {
        let (kind, index, sign) = terms(piece, square);
        let (m, e) = (MG_TABLE[kind][index], EG_TABLE[kind][index]);
        if sign > 0 {
            self.mg = self.mg - m;
            self.eg = self.eg - e;
        } else {
            self.mg = self.mg + m;
            self.eg = self.eg + e;
        }
        self.phase = self.phase - PHASE_WEIGHT[kind];
    }
}

/// Withdrawing a piece's terms undoes applying them: a piece that appears
/// and then leaves the same square leaves the accumulator as it was.
pub proof fn lemma_add_then_remove(acc: Accumulator, piece: Piece, s: int)
    requires
        fits(acc, piece, s, 1),
    ensures
        ({
            let a = applied(acc, piece, s, 1);
            applied(Accumulator { mg: a.0 as i32, eg: a.1 as i32, phase: a.2 as i32 }, piece, s, -1)
                == (acc.mg as int, acc.eg as int, acc.phase as int)
        }),
{
    let a = applied(acc, piece, s, 1);
    let mid = Accumulator { mg: a.0 as i32, eg: a.1 as i32, phase: a.2 as i32 };
    assert(mid.mg as int == a.0 && mid.eg as int == a.1 && mid.phase as int == a.2);
}

/// The interpolation of a midgame and an endgame score by the phase (capped
/// at [`TOTAL_PHASE`]), rounded toward zero.
pub open spec fn blended(mg: int, eg: int, phase: int) -> int {
    let p = if phase < TOTAL_PHASE {
        phase
    } else {
        TOTAL_PHASE as int
    };
    let n = mg * p + eg * (TOTAL_PHASE - p);
    if n >= 0 {
        n / TOTAL_PHASE as int
    } else {
        -((-n) / TOTAL_PHASE as int)
    }
}

/// Interpolates a midgame and an endgame score by how much material remains.
pub fn blend(mg: i32, eg: i32, phase: i32) -> (s: i32)
    requires
        0 <= phase,
        -1_000_000 <= mg <= 1_000_000,
        -1_000_000 <= eg <= 1_000_000,
    ensures
        s == blended(mg as int, eg as int, phase as int),
{
    let p = if phase < TOTAL_PHASE {
        phase
    } else {
        TOTAL_PHASE
    };
    assert(-24_000_000 <= mg * p <= 24_000_000 && -24_000_000 <= eg * (TOTAL_PHASE - p)
        <= 24_000_000 && -24_000_000 <= mg * p + eg * (TOTAL_PHASE - p) <= 24_000_000) by (nonlinear_arith)
        requires
            0 <= p <= 24,
            -1_000_000 <= mg <= 1_000_000,
            -1_000_000 <= eg <= 1_000_000,
    ;
    (mg * p + eg * (TOTAL_PHASE - p)) / TOTAL_PHASE
}


/// A blend lies between its midgame and endgame scores' bounds.
pub proof fn lemma_blended_bound(mg: int, eg: int, phase: int)
    requires
        0 <= phase,
        -1_000_000 <= mg <= 1_000_000,
        -1_000_000 <= eg <= 1_000_000,
    ensures
        -1_000_000 <= blended(mg, eg, phase) <= 1_000_000,
{
    let p = if phase < TOTAL_PHASE {
        phase
    } else {
        TOTAL_PHASE as int
    };
    let n = mg * p + eg * (TOTAL_PHASE - p);
    assert(-24_000_000 <= n <= 24_000_000) by (nonlinear_arith)
        requires
            0 <= p <= 24,
            n == mg * p + eg * (24 - p),
            -1_000_000 <= mg <= 1_000_000,
            -1_000_000 <= eg <= 1_000_000,
    ;
}

} // verus!
