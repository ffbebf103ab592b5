use vstd::prelude::*;
use crate::lattice_board::board::{piece_of, lemma_piece_of};
use crate::lattice_board::square::{is_file_letter, is_rank_digit};
use crate::lattice_board::{Board, CastlingRights, Color, Piece, PieceType, Square};

verus! {

broadcast use vstd::slice::group_slice_axioms;

/// Why a FEN string failed to parse.
#[derive(Debug, Clone, Copy, PartialEq, Eq, Structural, PartialOrd, Ord, Hash)]
pub enum ParseFenError {
    /// Input ended where a required field was expected.
    IncompleteFen,
    /// An unexpected byte at the given offset.
    UnexpectedChar(usize),
    /// The castling field was malformed (empty, duplicate, or bad letter).
    InvalidCastlingRights,
    /// The piece-placement field did not describe exactly 64 squares.
    InvalidPlacement,
    /// The en-passant field was not `-` or a square on rank 3 or 6.
    InvalidEnpassentSquare,
    /// A numeric field overflowed or contained no digits.
    InvalidNumber,
    /// The half-move clock did not fit in a `u8`.
    InvalidHalfMoveClock,
    /// The full-move counter was `0` or did not fit in a `u16`.
    InvalidFullMove,
}

/// Whether position `pos` ends a field: past the end, or a space.
pub open spec fn at_field_end(fen: Seq<u8>, pos: int) -> bool {
    pos >= fen.len() || fen[pos] == 32
}

/// The piece a placement letter stands for (`PNBRQK` white, `pnbrqk` black).
pub open spec fn fen_piece(b: u8) -> Option<Piece> {
    if b == 80 {
        Some(piece_of(Color::White, PieceType::Pawn))
    } else if b == 112 {
        Some(piece_of(Color::Black, PieceType::Pawn))
    } else if b == 78 {
        Some(piece_of(Color::White, PieceType::Knight))
    } else if b == 110 {
        Some(piece_of(Color::Black, PieceType::Knight))
    } else if b == 66 {
        Some(piece_of(Color::White, PieceType::Bishop))
    } else if b == 98 {
        Some(piece_of(Color::Black, PieceType::Bishop))
    } else if b == 82 {
        Some(piece_of(Color::White, PieceType::Rook))
    } else if b == 114 {
        Some(piece_of(Color::Black, PieceType::Rook))
    } else if b == 81 {
        Some(piece_of(Color::White, PieceType::Queen))
    } else if b == 113 {
        Some(piece_of(Color::Black, PieceType::Queen))
    } else if b == 75 {
        Some(piece_of(Color::White, PieceType::King))
    } else if b == 107 {
        Some(piece_of(Color::Black, PieceType::King))
    } else {
        None
    }
}

/// Reads the placement field from `pos` on, with `rank` and `file` the next
/// square to fill and `mb` the pieces placed so far: ranks run from 8 down to
/// 1 separated by `/`, a digit skips that many squares, a letter places a
/// piece. Gives the position of the field's end and the placed pieces.
pub open spec fn scan_placement(
    fen: Seq<u8>,
    pos: int,
    rank: int,
    file: int,
    mb: Seq<Option<Piece>>,
) -> Result<(int, Seq<Option<Piece>>), ParseFenError>
    decreases fen.len() - pos,
{
    if pos < 0 || at_field_end(fen, pos) {
        if rank != 0 || file != 8 {
            Err(ParseFenError::InvalidPlacement)
        } else {
            Ok((pos, mb))
        }
    } else {
        let b = fen[pos];
        if b == 47 {
            if file != 8 || rank == 0 {
                Err(ParseFenError::InvalidPlacement)
            } else {
                scan_placement(fen, pos + 1, rank - 1, 0, mb)
            }
        } else if 49 <= b <= 56 {
            if file + (b - 48) > 8 {
                Err(ParseFenError::InvalidPlacement)
            } else {
                scan_placement(fen, pos + 1, rank, file + (b - 48), mb)
            }
        } else {
            match fen_piece(b) {
                None => Err(ParseFenError::UnexpectedChar(pos as usize)),
                Some(p) => if file >= 8 {
                    Err(ParseFenError::InvalidPlacement)
                } else {
                    scan_placement(fen, pos + 1, rank, file + 1, mb.update(8 * rank + file, Some(p)))
                },
            }
        }
    }
}

/// Reads the castling field's letters from `pos` on, given the rights seen so
/// far: `K`, `Q`, `k`, `q` each at most once.
pub open spec fn scan_castling(fen: Seq<u8>, pos: int, rights: u8) -> Result<(int, u8), ParseFenError>
    decreases fen.len() - pos,
{
    if pos < 0 || at_field_end(fen, pos) {
        if rights == 0 {
            Err(ParseFenError::InvalidCastlingRights)
        } else {
            Ok((pos, rights))
        }
    } else {
        let b = fen[pos];
        let right: u8 = if b == 75 {
            1
        } else if b == 81 {
            2
        } else if b == 107 {
            4
        } else if b == 113 {
            8
        } else {
            0
        };
        if right == 0 {
            Err(ParseFenError::UnexpectedChar(pos as usize))
        } else if rights & right == right {
            Err(ParseFenError::InvalidCastlingRights)
        } else {
            scan_castling(fen, pos + 1, rights | right)
        }
    }
}

/// Reads a run of decimal digits from `pos` on, given the value so far;
/// fails on a value past `u32::MAX`, on a byte that is neither a digit nor a
/// space, and on an empty run (`start` is where the run began).
pub open spec fn scan_u32(fen: Seq<u8>, start: int, pos: int, value: int) -> Result<(int, u32), ParseFenError>
    decreases fen.len() - pos,
{
    if pos < 0 || at_field_end(fen, pos) {
        if pos == start {
            Err(ParseFenError::InvalidNumber)
        } else {
            Ok((pos, value as u32))
        }
    } else if 48 <= fen[pos] <= 57 {
        let v = value * 10 + (fen[pos] - 48);
        if v > u32::MAX {
            Err(ParseFenError::InvalidNumber)
        } else {
            scan_u32(fen, start, pos + 1, v)
        }
    } else {
        Err(ParseFenError::UnexpectedChar(pos as usize))
    }
}

/// Consumes the separator after a field at `pos`: `Ok(None)` at the end of
/// input, `Ok(Some(next))` after a space, an error on any other byte.
pub open spec fn next_field_of(fen: Seq<u8>, pos: int) -> Result<Option<int>, ParseFenError> {
    if pos >= fen.len() {
        Ok(None)
    } else if fen[pos] == 32 {
        Ok(Some(pos + 1))
    } else {
        Err(ParseFenError::UnexpectedChar(pos as usize))
    }
}

/// The side-to-move field at `pos`.
pub open spec fn side_of(fen: Seq<u8>, pos: int) -> Result<(int, Color), ParseFenError> {
    if pos >= fen.len() {
        Err(ParseFenError::IncompleteFen)
    } else if fen[pos] == 119 {
        Ok((pos + 1, Color::White))
    } else if fen[pos] == 98 {
        Ok((pos + 1, Color::Black))
    } else {
        Err(ParseFenError::UnexpectedChar(pos as usize))
    }
}

/// The castling field at `pos`: `-` or a non-empty set of `KQkq` letters.
pub open spec fn castling_of(fen: Seq<u8>, pos: int) -> Result<(int, u8), ParseFenError> {
    if pos < fen.len() && fen[pos] == 45 {
        Ok((pos + 1, 0))
    } else {
        scan_castling(fen, pos, 0)
    }
}

/// The en passant field at `pos`: `-`, or a square on rank 3 or 6.
pub open spec fn en_passant_of(fen: Seq<u8>, pos: int) -> Result<(int, Option<int>), ParseFenError> {
    if pos < fen.len() && fen[pos] == 45 {
        Ok((pos + 1, None))
    } else if pos + 2 > fen.len() {
        Err(ParseFenError::IncompleteFen)
    } else if !is_file_letter(fen[pos]) || !is_rank_digit(fen[pos + 1]) {
        Err(ParseFenError::InvalidEnpassentSquare)
    } else if fen[pos + 1] != 51 && fen[pos + 1] != 54 {
        Err(ParseFenError::InvalidEnpassentSquare)
    } else {
        Ok((pos + 2, Some(8 * (fen[pos + 1] - 49) + (fen[pos] - 97))))
    }
}

/// The half-move clock field at `pos`: a number that fits in a `u8`.
pub open spec fn half_move_of(fen: Seq<u8>, pos: int) -> Result<(int, u8), ParseFenError> {
    match scan_u32(fen, pos, pos, 0) {
        Err(e) => Err(e),
        Ok((end, v)) => if v > 255 {
            Err(ParseFenError::InvalidHalfMoveClock)
        } else {
            Ok((end, v as u8))
        },
    }
}

/// The full-move counter field at `pos`: a number in `1..=65535`.
pub open spec fn full_move_of(fen: Seq<u8>, pos: int) -> Result<(int, u16), ParseFenError> {
    match scan_u32(fen, pos, pos, 0) {
        Err(e) => Err(e),
        Ok((end, v)) => if v == 0 || v > 65535 {
            Err(ParseFenError::InvalidFullMove)
        } else {
            Ok((end, v as u16))
        },
    }
}

/// The parsed contents of a FEN: placement, side, castling mask, en passant
/// square index, half-move clock and full-move counter.
pub type FenFields = (Seq<Option<Piece>>, Color, u8, Option<int>, u8, u16);

/// The meaning of a FEN byte string: its six space-separated fields, where
/// input may end after any complete field and every absent field takes its
/// default (white to move, no castling rights, no en passant square, clocks 0
/// and 1); anything after the sixth field is an error.
pub open spec fn fen_meaning(fen: Seq<u8>) -> Result<FenFields, ParseFenError> {
    let empty = Seq::new(64, |i: int| None::<Piece>);
    match scan_placement(fen, 0, 7, 0, empty) {
        Err(e) => Err(e),
        Ok((p1, mb)) => match next_field_of(fen, p1) {
            Err(e) => Err(e),
            Ok(None) => Ok((mb, Color::White, 0u8, None, 0u8, 1u16)),
            Ok(Some(q1)) => match side_of(fen, q1) {
                Err(e) => Err(e),
                Ok((p2, side)) => match next_field_of(fen, p2) {
                    Err(e) => Err(e),
                    Ok(None) => Ok((mb, side, 0u8, None, 0u8, 1u16)),
                    Ok(Some(q2)) => match castling_of(fen, q2) {
                        Err(e) => Err(e),
                        Ok((p3, rights)) => match next_field_of(fen, p3) {
                            Err(e) => Err(e),
                            Ok(None) => Ok((mb, side, rights, None, 0u8, 1u16)),
                            Ok(Some(q3)) => match en_passant_of(fen, q3) {
                                Err(e) => Err(e),
                                Ok((p4, ep)) => match next_field_of(fen, p4) {
                                    Err(e) => Err(e),
                                    Ok(None) => Ok((mb, side, rights, ep, 0u8, 1u16)),
                                    Ok(Some(q4)) => match half_move_of(fen, q4) {
                                        Err(e) => Err(e),
                                        Ok((p5, half)) => match next_field_of(fen, p5) {
                                            Err(e) => Err(e),
                                            Ok(None) => Ok((mb, side, rights, ep, half, 1u16)),
                                            Ok(Some(q5)) => match full_move_of(fen, q5) {
                                                Err(e) => Err(e),
                                                Ok((p6, full)) => if p6 < fen.len() {
                                                    Err(ParseFenError::UnexpectedChar(p6 as usize))
                                                } else {
                                                    Ok((mb, side, rights, ep, half, full))
                                                },
                                            },
                                        },
                                    },
                                },
                            },
                        },
                    },
                },
            },
        },
    }
}

/// Whether `b`'s contents are the parsed fields `f`.
pub open spec fn board_matches(b: Board, f: FenFields) -> bool {
    &&& b.wf()
    &&& b.mailbox() == f.0
    &&& b.spec_side() == f.1
    &&& b.spec_castling().mask() == f.2
    &&& (b.spec_ep() is None <==> f.3 is None)
    &&& (b.spec_ep() is Some ==> b.spec_ep()->0.idx() == f.3->0)
    &&& b.spec_half() == f.4
    &&& b.spec_full() == f.5
}

/// A forward-only byte cursor over a FEN string.
///
/// Each `parse_*` method consumes exactly one field, leaving the cursor on the
/// terminating space (or at end of input); [`next_field`](Self::next_field)
/// then consumes the separator and reports whether another field follows.
struct FenCursor<'a> {
    fen: &'a [u8],
    pos: usize,
}

impl<'a> FenCursor<'a> {
    /// The byte under the cursor, if any.
    fn peek(&self) -> (b: Option<u8>)
        ensures
            b is None <==> self.pos >= self.fen@.len(),
            b is Some ==> b->0 == self.fen@[self.pos as int] && self.pos < self.fen.len(),
    {
        if self.pos < self.fen.len() {
            Some(self.fen[self.pos])
        } else {
            None
        }
    }

    /// The byte under the cursor, if any, moving past it.
    fn bump(&mut self) -> (b: Option<u8>)
        requires
            old(self).pos <= old(self).fen@.len(),
        ensures
            final(self).fen == old(self).fen,
            b is None <==> old(self).pos >= old(self).fen@.len(),
            b is Some ==> b->0 == old(self).fen@[old(self).pos as int] && final(self).pos == old(
                self,
            ).pos + 1,
            b is None ==> final(self).pos == old(self).pos,
    {
        let b = self.peek();
        if b.is_some() {
            self.pos = self.pos + 1;
        }
        b
    }

    /// Consume the single space separating two fields: `Ok(true)` when a
    /// field follows, `Ok(false)` at the end of input, an error on any other
    /// byte.
    fn next_field(&mut self) -> (r: Result<bool, ParseFenError>)
        requires
            old(self).pos <= old(self).fen@.len(),
        ensures
            final(self).fen == old(self).fen,
            final(self).pos <= final(self).fen@.len(),
            match next_field_of(old(self).fen@, old(self).pos as int) {
                Ok(None) => r == Ok::<bool, ParseFenError>(false) && final(self).pos == old(self).pos,
                Ok(Some(q)) => r == Ok::<bool, ParseFenError>(true) && final(self).pos == q,
                Err(e) => r == Err::<bool, ParseFenError>(e),
            },
    {
        match self.peek() {
            None => Ok(false),
            Some(b) => {
                if b == 32 {
                    self.pos = self.pos + 1;
                    Ok(true)
                } else {
                    Err(ParseFenError::UnexpectedChar(self.pos))
                }
            },
        }
    }

    /// The piece a placement letter stands for.
    fn parse_piece(b: u8) -> (p: Option<Piece>)
        ensures
            p == fen_piece(b),
    {
        if b == 80 {
            Some(Piece::new(Color::White, PieceType::Pawn))
        } else if b == 112 {
            Some(Piece::new(Color::Black, PieceType::Pawn))
        } else if b == 78 {
            Some(Piece::new(Color::White, PieceType::Knight))
        } else if b == 110 {
            Some(Piece::new(Color::Black, PieceType::Knight))
        } else if b == 66 {
            Some(Piece::new(Color::White, PieceType::Bishop))
        } else if b == 98 {
            Some(Piece::new(Color::Black, PieceType::Bishop))
        } else if b == 82 {
            Some(Piece::new(Color::White, PieceType::Rook))
        } else if b == 114 {
            Some(Piece::new(Color::Black, PieceType::Rook))
        } else if b == 81 {
            Some(Piece::new(Color::White, PieceType::Queen))
        } else if b == 113 {
            Some(Piece::new(Color::Black, PieceType::Queen))
        } else if b == 75 {
            Some(Piece::new(Color::White, PieceType::King))
        } else if b == 107 {
            Some(Piece::new(Color::Black, PieceType::King))
        } else {
            None
        }
    }

    /// Field 1: piece placement, written straight into the board. FEN ranks
    /// run from rank 8 (index 7) down to rank 1 (index 0).
    fn parse_placement(&mut self, board: &mut Board) -> (r: Result<(), ParseFenError>)
        requires
            old(self).pos == 0,
            old(board).wf(),
            old(board).mailbox() == Seq::new(64, |i: int| None::<Piece>),
        ensures
            final(self).fen == old(self).fen,
            final(self).pos <= final(self).fen@.len(),
            final(board).wf(),
            final(board).spec_side() == old(board).spec_side(),
            final(board).spec_ep() == old(board).spec_ep(),
            final(board).spec_castling() == old(board).spec_castling(),
            final(board).spec_half() == old(board).spec_half(),
            final(board).spec_full() == old(board).spec_full(),
            match scan_placement(old(self).fen@, 0, 7, 0, old(board).mailbox()) {
                Ok((end, mb)) => r is Ok && final(self).pos == end && final(board).mailbox() == mb,
                Err(e) => r == Err::<(), ParseFenError>(e),
            },
    {
        let mut rank: u8 = 7;
        let mut file: u8 = 0;
        let ghost whole = scan_placement(self.fen@, 0, 7, 0, board.mailbox());
        loop
            invariant
                self.fen == old(self).fen,
                self.pos <= self.fen@.len(),
                rank <= 7,
                file <= 8,
                board.wf(),
                board.spec_side() == old(board).spec_side(),
                board.spec_ep() == old(board).spec_ep(),
                board.spec_castling() == old(board).spec_castling(),
                board.spec_half() == old(board).spec_half(),
                board.spec_full() == old(board).spec_full(),
                whole == scan_placement(self.fen@, self.pos as int, rank as int, file as int, board.mailbox()),
                whole == scan_placement(old(self).fen@, 0, 7, 0, old(board).mailbox()),
            ensures
                self.fen == old(self).fen,
                self.pos <= self.fen@.len(),
                rank <= 7,
                file <= 8,
                board.wf(),
                board.spec_side() == old(board).spec_side(),
                board.spec_ep() == old(board).spec_ep(),
                board.spec_castling() == old(board).spec_castling(),
                board.spec_half() == old(board).spec_half(),
                board.spec_full() == old(board).spec_full(),
                whole == scan_placement(self.fen@, self.pos as int, rank as int, file as int, board.mailbox()),
                at_field_end(self.fen@, self.pos as int),
            decreases self.fen@.len() - self.pos,
        {
            let b = match self.peek() {
                None => break,
                Some(b) => {
                    if b == 32 {
                        break;
                    }
                    b
                },
            };
            self.pos = self.pos + 1;
            if b == 47 {
                if file != 8 || rank == 0 {
                    return Err(ParseFenError::InvalidPlacement);
                }
                rank = rank - 1;
                file = 0;
            } else if 49 <= b && b <= 56 {
                file = file + (b - 48);
                if file > 8 {
                    return Err(ParseFenError::InvalidPlacement);
                }
            } else {
                let piece = match Self::parse_piece(b) {
                    Some(p) => p,
                    None => {
                        return Err(ParseFenError::UnexpectedChar(self.pos - 1));
                    },
                };
                if file >= 8 {
                    return Err(ParseFenError::InvalidPlacement);
                }
                board.put_piece(Square::new(rank, file), piece);
                file = file + 1;
            }
        }
        if rank != 0 || file != 8 {
            return Err(ParseFenError::InvalidPlacement);
        }
        Ok(())
    }

    /// Field 2: side to move.
    fn parse_side_to_move(&mut self) -> (r: Result<Color, ParseFenError>)
        requires
            old(self).pos <= old(self).fen@.len(),
        ensures
            final(self).fen == old(self).fen,
            final(self).pos <= final(self).fen@.len(),
            match side_of(old(self).fen@, old(self).pos as int) {
                Ok((end, c)) => r == Ok::<Color, ParseFenError>(c) && final(self).pos == end,
                Err(e) => r == Err::<Color, ParseFenError>(e),
            },
    {
        match self.bump() {
            Some(b) => {
                if b == 119 {
                    Ok(Color::White)
                } else if b == 98 {
                    Ok(Color::Black)
                } else {
                    Err(ParseFenError::UnexpectedChar(self.pos - 1))
                }
            },
            None => Err(ParseFenError::IncompleteFen),
        }
    }

    /// Field 3: castling rights (`KQkq`, a subset, or `-`).
    fn parse_castling_rights(&mut self) -> (r: Result<CastlingRights, ParseFenError>)
        requires
            old(self).pos <= old(self).fen@.len(),
        ensures
            final(self).fen == old(self).fen,
            final(self).pos <= final(self).fen@.len(),
            match castling_of(old(self).fen@, old(self).pos as int) {
                Ok((end, m)) => r is Ok && r->Ok_0.mask() == m && final(self).pos == end,
                Err(e) => r == Err::<CastlingRights, ParseFenError>(e),
            },
    {
        match self.peek() {
            Some(b) => {
                if b == 45 {
                    self.pos = self.pos + 1;
                    return Ok(CastlingRights::none());
                }
            },
            None => {},
        }
        let mut rights = CastlingRights::none();
        let ghost whole = scan_castling(self.fen@, self.pos as int, 0);
        loop
            invariant
                self.fen == old(self).fen,
                self.pos <= self.fen@.len(),
                whole == scan_castling(self.fen@, self.pos as int, rights.mask()),
                whole == castling_of(old(self).fen@, old(self).pos as int),
                rights.mask() <= 15,
            ensures
                self.fen == old(self).fen,
                self.pos <= self.fen@.len(),
                whole == scan_castling(self.fen@, self.pos as int, rights.mask()),
                at_field_end(self.fen@, self.pos as int),
            decreases self.fen@.len() - self.pos,
        {
            let b = match self.peek() {
                None => break,
                Some(b) => {
                    if b == 32 {
                        break;
                    }
                    b
                },
            };
            self.pos = self.pos + 1;
            let right = if b == 75 {
                CastlingRights::white_kingside()
            } else if b == 81 {
                CastlingRights::white_queenside()
            } else if b == 107 {
                CastlingRights::black_kingside()
            } else if b == 113 {
                CastlingRights::black_queenside()
            } else {
                return Err(ParseFenError::UnexpectedChar(self.pos - 1));
            };
            if rights.contains(right) {
                return Err(ParseFenError::InvalidCastlingRights);
            }
            rights = rights.union(right);
        }
        if rights.as_u8() == 0 {
            return Err(ParseFenError::InvalidCastlingRights);
        }
        Ok(rights)
    }

    /// Field 4: en passant target square (`-`, or a square on rank 3 or 6).
    fn parse_en_passant(&mut self) -> (r: Result<Option<Square>, ParseFenError>)
        requires
            old(self).pos <= old(self).fen@.len(),
        ensures
            final(self).fen == old(self).fen,
            final(self).pos <= final(self).fen@.len(),
            match en_passant_of(old(self).fen@, old(self).pos as int) {
                Ok((end, None)) => r == Ok::<Option<Square>, ParseFenError>(None) && final(self).pos
                    == end,
                Ok((end, Some(i))) => r is Ok && r->Ok_0 is Some && r->Ok_0->0.idx() == i
                    && final(self).pos == end,
                Err(e) => r == Err::<Option<Square>, ParseFenError>(e),
            },
    {
        match self.peek() {
            Some(b) => {
                if b == 45 {
                    self.pos = self.pos + 1;
                    return Ok(None);
                }
            },
            None => {},
        }
        let file = match self.bump() {
            Some(b) => b,
            None => {
                return Err(ParseFenError::IncompleteFen);
            },
        };
        let rank = match self.bump() {
            Some(b) => b,
            None => {
                return Err(ParseFenError::IncompleteFen);
            },
        };
        let square = match Square::from_ascii(&[file, rank]) {
            Ok(s) => s,
            Err(_) => {
                return Err(ParseFenError::InvalidEnpassentSquare);
            },
        };
        if square.rank() != 2 && square.rank() != 5 {
            return Err(ParseFenError::InvalidEnpassentSquare);
        }
        Ok(Some(square))
    }

    /// Parse a run of ASCII digits into a `u32`, overflow-checked.
    fn parse_u32(&mut self) -> (r: Result<u32, ParseFenError>)
        requires
            old(self).pos <= old(self).fen@.len(),
        ensures
            final(self).fen == old(self).fen,
            final(self).pos <= final(self).fen@.len(),
            match scan_u32(old(self).fen@, old(self).pos as int, old(self).pos as int, 0) {
                Ok((end, v)) => r == Ok::<u32, ParseFenError>(v) && final(self).pos == end,
                Err(e) => r == Err::<u32, ParseFenError>(e),
            },
    {
        let start = self.pos;
        let mut value: u32 = 0;
        let ghost whole = scan_u32(self.fen@, start as int, start as int, 0);
        loop
            invariant
                self.fen == old(self).fen,
                start <= self.pos <= self.fen@.len(),
                whole == scan_u32(self.fen@, start as int, self.pos as int, value as int),
                whole == scan_u32(old(self).fen@, old(self).pos as int, old(self).pos as int, 0),
                start == old(self).pos,
            ensures
                self.fen == old(self).fen,
                start <= self.pos <= self.fen@.len(),
                whole == scan_u32(self.fen@, start as int, self.pos as int, value as int),
                at_field_end(self.fen@, self.pos as int),
            decreases self.fen@.len() - self.pos,
        {
            match self.peek() {
                Some(b) => {
                    if 48 <= b && b <= 57 {
                        self.pos = self.pos + 1;
                        let next = match value.checked_mul(10) {
                            Some(v) => v.checked_add((b - 48) as u32),
                            None => None,
                        };
                        value = match next {
                            Some(v) => v,
                            None => {
                                return Err(ParseFenError::InvalidNumber);
                            },
                        };
                    } else if b == 32 {
                        break;
                    } else {
                        return Err(ParseFenError::UnexpectedChar(self.pos));
                    }
                },
                None => break,
            }
        }
        if self.pos == start {
            return Err(ParseFenError::InvalidNumber);
        }
        Ok(value)
    }

    /// Field 5: half-move clock.
    fn parse_half_move_clock(&mut self) -> (r: Result<u8, ParseFenError>)
        requires
            old(self).pos <= old(self).fen@.len(),
        ensures
            final(self).fen == old(self).fen,
            final(self).pos <= final(self).fen@.len(),
            match half_move_of(old(self).fen@, old(self).pos as int) {
                Ok((end, v)) => r == Ok::<u8, ParseFenError>(v) && final(self).pos == end,
                Err(e) => r == Err::<u8, ParseFenError>(e),
            },
    {
        let v = self.parse_u32()?;
        if v > 255 {
            return Err(ParseFenError::InvalidHalfMoveClock);
        }
        Ok(v as u8)
    }

    /// Field 6: full-move counter (1-based, so `0` is invalid).
    fn parse_full_move(&mut self) -> (r: Result<u16, ParseFenError>)
        requires
            old(self).pos <= old(self).fen@.len(),
        ensures
            final(self).fen == old(self).fen,
            final(self).pos <= final(self).fen@.len(),
            match full_move_of(old(self).fen@, old(self).pos as int) {
                Ok((end, v)) => r == Ok::<u16, ParseFenError>(v) && final(self).pos == end,
                Err(e) => r == Err::<u16, ParseFenError>(e),
            },
    {
        let value = self.parse_u32()?;
        if value == 0 || value > 65535 {
            return Err(ParseFenError::InvalidFullMove);
        }
        Ok(value as u16)
    }
}

impl Board {
    /// Parse a board from a FEN byte string.
    ///
    /// Single-pass and lenient: parsing may stop after any complete field, and
    /// every absent field takes its default value.
    pub fn from_fen(fen: &[u8]) -> (r: Result<Board, ParseFenError>)
        ensures
            match fen_meaning(fen@) {
                Ok(f) => r is Ok && board_matches(r->Ok_0, f),
                Err(e) => r == Err::<Board, ParseFenError>(e),
            },
    {
        let mut cur = FenCursor { fen, pos: 0 };
        let mut board = Board::empty();
        board.set_castling_rights(CastlingRights::none());
        cur.parse_placement(&mut board)?;
        if !cur.next_field()? {
            return Ok(board);
        }
        let side = cur.parse_side_to_move()?;
        board.set_side_to_move(side);
        if !cur.next_field()? {
            return Ok(board);
        }
        let rights = cur.parse_castling_rights()?;
        board.set_castling_rights(rights);
        if !cur.next_field()? {
            return Ok(board);
        }
        let ep = cur.parse_en_passant()?;
        board.set_en_passant(ep);
        if !cur.next_field()? {
            return Ok(board);
        }
        let half = cur.parse_half_move_clock()?;
        board.set_half_move_clock(half);
        if !cur.next_field()? {
            return Ok(board);
        }
        let full = cur.parse_full_move()?;
        board.set_full_moves(full);
        if cur.peek().is_some() {
            return Err(ParseFenError::UnexpectedChar(cur.pos));
        }
        Ok(board)
    }
}

} // verus!
