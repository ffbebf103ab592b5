//! Training records: fixed 32-byte little-endian records, each a piece
//! placement with White to move, the engine score and the game result.

use vstd::prelude::*;
use crate::bits::{bit_set, lemma_bit_set_finite, lemma_u8_bits};
use crate::board::piece::kind_of;
use crate::board::{Bitboard, Board, CastlingRights, Color, Piece, PieceType, Square, State};
use crate::nnue::{le, read_i16, read_le8, signed16};

verus! {

broadcast use vstd::std_specs::vec::group_vec_axioms;

/// Bytes per record.
pub const RECORD_BYTES: usize = 32;

/// Why a record could not be decoded.
#[derive(Debug, Clone, Copy, PartialEq, Eq, Structural)]
pub enum DecodeError {
    /// The buffer is not a whole number of records.
    Ragged(usize),
    /// `result` was not one of the three defined values.
    BadResult(u8),
    /// A nibble decoded to a role above `King`.
    BadPiece(u8),
    /// The position has no king for one of the sides.
    NoKing,
}

/// One training position: a board and how its game ended.
#[derive(Debug)]
pub struct Sample {
    /// The position, always with White to move.
    pub board: Board,
    /// Game outcome for the side to move: 0 loss, 1 draw, 2 win.
    pub result: u8,
    /// Engine score in centipawns, relative to the side to move.
    pub score: i16,
}

/// The occupancy word of a record: its first eight bytes, little-endian.
pub open spec fn record_occ(r: Seq<u8>) -> u64 {
    le(r, 0, 8) as u64
}

/// The `k`-th piece nibble of a record: two per byte from byte 8, low
/// nibble first.
pub open spec fn nibble_at(r: Seq<u8>, k: int) -> u8 {
    let b = r[8 + k / 2];
    if k % 2 == 0 {
        (b % 16) as u8
    } else {
        (b / 16) as u8
    }
}

/// The piece a nibble names: `color << 3 | role`.
pub open spec fn nibble_piece(n: u8) -> Piece {
    Piece::of(
        if n % 16 < 8 {
            Color::White
        } else {
            Color::Black
        },
        kind_of(n as int % 8),
    )
}

/// The position of square `sq` among the occupied squares of `occ`: how
/// many occupied squares lie below it.
pub open spec fn order(occ: u64, sq: int) -> int {
    bit_set(occ).filter(|j: int| j < sq).len() as int
}

/// The first of the pieces `k..n` whose nibble names no role.
pub open spec fn first_bad_from(r: Seq<u8>, k: int, n: int) -> Option<int>
    decreases n - k,
{
    if k >= n {
        None
    } else if nibble_at(r, k) % 8 > 5 {
        Some(k)
    } else {
        first_bad_from(r, k + 1, n)
    }
}

/// The placement a record describes: the `k`-th occupied square (upward)
/// holds the piece of the `k`-th nibble.
pub open spec fn record_mailbox(r: Seq<u8>) -> Seq<Option<Piece>> {
    let occ = record_occ(r);
    Seq::new(
        64,
        |i: int|
            if bit_set(occ).contains(i) {
                Some(nibble_piece(nibble_at(r, order(occ, i))))
            } else {
                None
            },
    )
}

/// Whether a placement has a king of color `c`.
pub open spec fn has_king(mb: Seq<Option<Piece>>, c: Color) -> bool {
    exists|i: int| 0 <= i < 64 && mb[i] == Some(Piece::of(c, PieceType::King))
}

/// Whether decoding a record stays within its 32 nibbles: the result code
/// is rejected first, or there are at most 32 pieces, or a bad nibble among
/// the first 32 stops the reading.
pub open spec fn decode_safe(r: Seq<u8>) -> bool {
    r[26] >= 3 || bit_set(record_occ(r)).len() <= 32 || first_bad_from(r, 0, 32) is Some
}

/// What decoding a record gives: a bad result code, else the first bad
/// piece nibble, else a missing king, else success.
pub open spec fn decode_outcome(r: Seq<u8>) -> Result<(), DecodeError> {
    let n = bit_set(record_occ(r)).len() as int;
    if r[26] >= 3 {
        Err(DecodeError::BadResult(r[26]))
    } else if first_bad_from(r, 0, n) is Some {
        Err(DecodeError::BadPiece(nibble_at(r, first_bad_from(r, 0, n)->0)))
    } else if !has_king(record_mailbox(r), Color::White) || !has_king(
        record_mailbox(r),
        Color::Black,
    ) {
        Err(DecodeError::NoKing)
    } else {
        Ok(())
    }
}

/// `s` is the sample record `r` describes: its placement with White to
/// move, no castling rights or en passant square, clocks 0 and 1, and the
/// record's score and result.
pub open spec fn sample_matches(s: Sample, r: Seq<u8>) -> bool {
    let st = s.board.spec_state();
    &&& s.board.wf()
    &&& s.board.spec_mailbox() == record_mailbox(r)
    &&& st.spec_side() == Color::White
    &&& st.spec_castling().bits() == 0
    &&& st.spec_ep() is None
    &&& st.spec_halfmove() == 0
    &&& st.spec_fullmove() == 1
    &&& s.board.spec_history().len() == 0
    &&& s.score == signed16(le(r, 24, 2))
    &&& s.result == r[26]
}

/// The squares holding a king of color `c` are none exactly when the
/// placement has no such king.
proof fn lemma_kings(mb: Seq<Option<Piece>>, s: Set<int>, c: Color)
    requires
        mb.len() == 64,
        forall|i: int|
            0 <= i < 64 && (#[trigger] mb[i]) is Some ==> mb[i]->0.byte() < 16 && mb[i]->0.byte() % 8 < 6,
        s == Set::new(
            |i: int| 0 <= i < 64 && mb[i] is Some && mb[i]->0.spec_kind() == PieceType::King,
        ).intersect(Set::new(|i: int| 0 <= i < 64 && mb[i] is Some && mb[i]->0.spec_color() == c)),
    ensures
        (s == Set::<int>::empty()) <==> !has_king(mb, c),
{
    let k = Piece::of(c, PieceType::King);
    if has_king(mb, c) {
        let i = choose|i: int| 0 <= i < 64 && mb[i] == Some(k);
        k.lemma_of(k, c, PieceType::King);
        assert(s.contains(i));
    }
    if s != Set::<int>::empty() {
        assert(exists|i: int| s.contains(i)) by {
            if !(exists|i: int| s.contains(i)) {
                assert(s =~= Set::<int>::empty());
            }
        }
        let i = choose|i: int| s.contains(i);
        let p = mb[i]->0;
        p.lemma_of(k, c, PieceType::King);
        assert(mb[i] == Some(k));
    }
}

/// Skipping pieces with good nibbles does not change the first bad one.
proof fn lemma_first_bad_skip(r: Seq<u8>, k: int, m: int, n: int)
    requires
        k <= m <= n,
        forall|j: int| k <= j < m ==> nibble_at(r, j) % 8 <= 5,
    ensures
        first_bad_from(r, k, n) == first_bad_from(r, m, n),
    decreases m - k,
{
    if k < m {
        lemma_first_bad_skip(r, k + 1, m, n);
    }
}

/// Decodes one 32-byte record (see [`decode_outcome`]).
pub fn decode(record: &[u8]) -> (res: Result<Sample, DecodeError>)
    requires
        record@.len() == RECORD_BYTES,
        decode_safe(record@),
    ensures
        res is Ok <==> decode_outcome(record@) is Ok,
        res matches Err(e) ==> decode_outcome(record@) == Err::<(), DecodeError>(e),
        res matches Ok(s) ==> sample_matches(s, record@),
{
    let ghost r = record@;
    let occ = match read_le8(record, 0) {
        Some(v) => v,
        None => {
            return Err(DecodeError::Ragged(record.len()));
        },
    };
    let score = read_i16(record, 24);
    let result = record[26];
    if result > 2 {
        return Err(DecodeError::BadResult(result));
    }
    let ghost occ_set = bit_set(occ);
    let ghost n = occ_set.len() as int;
    proof {
        lemma_bit_set_finite(occ);
    }
    let castling = CastlingRights(0);
    let state = State {
        side_to_move: Color::White,
        castling,
        ep: None,
        halfmove: 0,
        fullmove: 1,
        zobrist: 0,
    };
    proof {
        castling.lemma_raw();
        state.lemma_fields();
    }
    let mut board = Board::empty(state);
    let mut rest = Bitboard::new(occ);
    let mut index: usize = 0;
    let ghost mut processed: Set<int> = Set::empty();
    while !rest.is_empty()
        invariant
            r == record@,
            r.len() == 32,
            decode_safe(r),
            r[26] < 3,
            occ == record_occ(r),
            occ_set == bit_set(occ),
            occ_set.finite(),
            n == occ_set.len(),
            rest@.subset_of(occ_set),
            rest@.finite(),
            index as int + rest@.len() == n,
            processed.finite(),
            processed.len() == index,
            forall|a: int| #[trigger] processed.contains(a) <==> (occ_set.contains(a) && !rest@.contains(a)),
            forall|a: int, b: int| processed.contains(a) && rest@.contains(b) ==> a < b,
            forall|j: int| 0 <= j < index ==> nibble_at(r, j) % 8 <= 5,
            board.layout_ok(),
            board.spec_mailbox().len() == 64,
            forall|i: int|
                0 <= i < 64 ==> #[trigger] board.spec_mailbox()[i] == if occ_set.contains(i) && !rest@.contains(i) {
                    Some(nibble_piece(nibble_at(r, order(occ, i))))
                } else {
                    None
                },
            board.spec_history().len() == 0,
            board.spec_state().spec_side() == Color::White,
            board.spec_state().spec_castling() == castling,
            board.spec_state().spec_ep() is None,
            board.spec_state().spec_halfmove() == 0,
            board.spec_state().spec_fullmove() == 1,
        decreases rest@.len(),
    {
        let ghost before = rest@;
        let square = match rest.next() {
            Some(s) => s,
            None => {
                assert(false);
                return Err(DecodeError::NoKing);
            },
        };
        let ghost sq = square.idx();
        proof {
            square.lemma_at(sq);
            assert(occ_set.filter(|j: int| j < sq) =~= processed);
            if index >= 32 {
                if n > 32 {
                    lemma_first_bad_skip(r, 0, 32, 32);
                }
            }
        }
        assert(index < 32);
        let byte = record[8 + index / 2];
        let shift: u8 = if index % 2 == 0 {
            0
        } else {
            4
        };
        let nibble = (byte >> shift) & 15;
        proof {
            lemma_u8_bits(byte);
            lemma_u8_bits(nibble);
            assert(nibble == nibble_at(r, index as int));
        }
        let role = nibble & 7;
        if role > 5 {
            proof {
                lemma_first_bad_skip(r, 0, index as int, n);
            }
            return Err(DecodeError::BadPiece(nibble));
        }
        let color = if nibble & 8 == 0 {
            Color::White
        } else {
            Color::Black
        };
        let piece = Piece::new(color, PieceType::from_index(role));
        assert(piece == nibble_piece(nibble_at(r, order(occ, sq))));
        board.add_piece(piece, square);
        index = index + 1;
        proof {
            processed = processed.insert(sq);
        }
    }
    proof {
        lemma_bit_set_finite(occ);
        assert(rest@ =~= Set::<int>::empty());
        lemma_first_bad_skip(r, 0, n, n);
        assert(board.spec_mailbox() =~= record_mailbox(r));
    }
    let kings = board.pieces(PieceType::King);
    let white = kings.and(board.color(Color::White));
    let black = kings.and(board.color(Color::Black));
    proof {
        board.lemma_valid_pieces();
        lemma_kings(board.spec_mailbox(), white@, Color::White);
        lemma_kings(board.spec_mailbox(), black@, Color::Black);
    }
    if white.is_empty() || black.is_empty() {
        return Err(DecodeError::NoKing);
    }
    board.finish_setup();
    Ok(Sample { board, result, score })
}

/// The `c`-th record of a shard.
pub open spec fn chunk(bytes: Seq<u8>, c: int) -> Seq<u8> {
    bytes.subrange(RECORD_BYTES * c, RECORD_BYTES * c + RECORD_BYTES)
}

/// How many of the first `c` records of a shard decode.
pub open spec fn ok_count(bytes: Seq<u8>, c: int) -> int
    decreases c,
{
    if c <= 0 {
        0
    } else {
        ok_count(bytes, c - 1) + if decode_outcome(chunk(bytes, c - 1)) is Ok {
            1int
        } else {
            0
        }
    }
}

/// Decodes a whole shard: every record that decodes becomes a sample, in
/// order, and the others are counted; a buffer that is not a whole number
/// of records is refused.
pub fn read_shard(bytes: &[u8]) -> (r: Result<(Vec<Sample>, usize), DecodeError>)
    requires
        bytes@.len() as int % 32 == 0 ==> forall|c: int|
            0 <= c < bytes@.len() as int / 32 ==> decode_safe(#[trigger] chunk(bytes@, c)),
    ensures
        r is Err <==> bytes@.len() as int % 32 != 0,
        r matches Err(e) ==> e == DecodeError::Ragged(bytes@.len() as usize),
        r matches Ok((samples, rejected)) ==> {
            let n = bytes@.len() as int / 32;
            &&& samples@.len() == ok_count(bytes@, n)
            &&& rejected == n - ok_count(bytes@, n)
            &&& forall|c: int|
                0 <= c < n && decode_outcome(#[trigger] chunk(bytes@, c)) is Ok ==> sample_matches(
                    samples@[ok_count(bytes@, c)],
                    chunk(bytes@, c),
                )
        },
{
    if bytes.len() % RECORD_BYTES != 0 {
        return Err(DecodeError::Ragged(bytes.len()));
    }
    let len = bytes.len();
    let n = len / RECORD_BYTES;
    let mut samples: Vec<Sample> = Vec::new();
    let mut rejected: usize = 0;
    let mut c: usize = 0;
    while c < n
        invariant
            c <= n,
            n == bytes@.len() as int / 32,
            len == bytes@.len(),
            bytes@.len() as int % 32 == 0,
            forall|q: int|
                0 <= q < bytes@.len() as int / 32 ==> decode_safe(#[trigger] chunk(bytes@, q)),
            samples@.len() == ok_count(bytes@, c as int),
            rejected == c - ok_count(bytes@, c as int),
            forall|q: int|
                0 <= q < c && decode_outcome(#[trigger] chunk(bytes@, q)) is Ok ==> sample_matches(
                    samples@[ok_count(bytes@, q)],
                    chunk(bytes@, q),
                ),
        decreases n - c,
    {
        let mut record: Vec<u8> = Vec::new();
        let start = c * RECORD_BYTES;
        let mut i: usize = 0;
        while i < RECORD_BYTES
            invariant
                i <= RECORD_BYTES,
                c < n,
                n == bytes@.len() as int / 32,
                start == c * RECORD_BYTES,
                start + RECORD_BYTES <= bytes@.len(),
                record@ == bytes@.subrange(start as int, start + i),
            decreases RECORD_BYTES - i,
        {
            record.push(bytes[start + i]);
            proof {
                assert(bytes@.subrange(start as int, start + i + 1) =~= bytes@.subrange(start as int, start + i).push(bytes@[start + i]));
            }
            i = i + 1;
        }
        assert(record@ == chunk(bytes@, c as int));
        proof {
            lemma_ok_count_bounds(bytes@, c as int);
        }
        proof {
            assert forall|q: int| 0 <= q < c && decode_outcome(#[trigger] chunk(bytes@, q)) is Ok implies ok_count(bytes@, q) < ok_count(bytes@, c as int) by {
                lemma_ok_count_mono(bytes@, q + 1, c as int);
            }
        }
        let ghost old_samples = samples@;
        match decode(record.as_slice()) {
            Ok(sample) => {
                samples.push(sample);
                assert(forall|k: int| 0 <= k < old_samples.len() ==> samples@[k] == old_samples[k]);
            },
            Err(_) => {
                rejected = rejected + 1;
                assert(samples@ == old_samples);
            },
        }
        proof {
            assert forall|q: int|
                0 <= q < c + 1 && decode_outcome(#[trigger] chunk(bytes@, q)) is Ok implies sample_matches(
                samples@[ok_count(bytes@, q)],
                chunk(bytes@, q),
            ) by {
                lemma_ok_count_bounds(bytes@, q);
                if q < c {
                    lemma_ok_count_mono(bytes@, q + 1, c as int);
                }
            }
        }
        c = c + 1;
    }
    Ok((samples, rejected))
}

/// More records hold at least as many decodable ones.
proof fn lemma_ok_count_mono(bytes: Seq<u8>, a: int, b: int)
    requires
        0 <= a <= b,
    ensures
        ok_count(bytes, a) <= ok_count(bytes, b),
    decreases b - a,
{
    if a < b {
        lemma_ok_count_mono(bytes, a, b - 1);
    }
}

/// The decodable records among the first `c` are at most `c`.
proof fn lemma_ok_count_bounds(bytes: Seq<u8>, c: int)
    requires
        c >= 0,
    ensures
        0 <= ok_count(bytes, c) <= c,
    decreases c,
{
    if c > 0 {
        lemma_ok_count_bounds(bytes, c - 1);
    }
}

} // verus!
