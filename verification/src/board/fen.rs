use vstd::prelude::*;
use crate::board::{Board, CastlingRights, Color, Piece, PieceType, Square, State};
use crate::text::{
    all_digits, digits_value, is_digit, parse_unsigned, parse_unsigned_exec, split_words, unsigned_digits,
    word_ranges, words, words_from, ws_len, lemma_word_ranges,
};

verus! {

broadcast use vstd::slice::group_slice_axioms;

/// An error returned when parsing an invalid FEN position.
#[derive(Debug, Clone, Copy, PartialEq, Eq, Structural)]
pub struct FenError;

/// The piece a placement letter stands for: `pnbrqk` black, upper case white.
pub open spec fn letter_piece(c: u8) -> Option<Piece> {
    let color = if 65 <= c <= 90 {
        Color::White
    } else {
        Color::Black
    };
    let lower = if 65 <= c <= 90 {
        c + 32
    } else {
        c as int
    };
    if lower == 112 {
        Some(Piece::of(color, PieceType::Pawn))
    } else if lower == 110 {
        Some(Piece::of(color, PieceType::Knight))
    } else if lower == 98 {
        Some(Piece::of(color, PieceType::Bishop))
    } else if lower == 114 {
        Some(Piece::of(color, PieceType::Rook))
    } else if lower == 113 {
        Some(Piece::of(color, PieceType::Queen))
    } else if lower == 107 {
        Some(Piece::of(color, PieceType::King))
    } else {
        None
    }
}

/// Whether `c` is a digit `1..=8`.
pub open spec fn is_run_digit(c: u8) -> bool {
    49 <= c <= 56
}

/// The squares a placement byte covers, in reading order: a digit that many
/// empty squares, a piece letter its piece, a slash none.
pub open spec fn byte_cells(c: u8) -> Seq<Option<Piece>> {
    if is_run_digit(c) {
        Seq::new((c - 48) as nat, |i: int| None::<Piece>)
    } else if c == 47 {
        Seq::empty()
    } else {
        seq![letter_piece(c)]
    }
}

/// The squares a placement text covers, in reading order (rank 8 first,
/// each rank from the a-file).
pub open spec fn cells(f: Seq<u8>) -> Seq<Option<Piece>>
    decreases f.len(),
{
    if f.len() == 0 {
        Seq::empty()
    } else {
        cells(f.drop_last()) + byte_cells(f.last())
    }
}

/// The number of slashes in `f`.
pub open spec fn slashes(f: Seq<u8>) -> int
    decreases f.len(),
{
    if f.len() == 0 {
        0
    } else {
        slashes(f.drop_last()) + if f.last() == 47 {
            1int
        } else {
            0int
        }
    }
}

/// Whether `c` may appear in a placement: a slash, a digit `1..=8`, a piece
/// letter.
pub open spec fn placement_byte(c: u8) -> bool {
    c == 47 || is_run_digit(c) || letter_piece(c) is Some
}

/// Whether `f` is a piece placement: eight ranks separated by slashes, each
/// covering exactly eight squares.
pub open spec fn placement_ok(f: Seq<u8>) -> bool {
    &&& forall|i: int| 0 <= i < f.len() ==> placement_byte(#[trigger] f[i])
    &&& forall|i: int|
        0 <= i < f.len() && #[trigger] f[i] == 47 ==> cells(f.take(i)).len() == 8 * (slashes(
            f.take(i),
        ) + 1)
    &&& slashes(f) == 7
    &&& cells(f).len() == 64
}

/// The reading-order position (rank 8 first) of square `i`.
pub open spec fn reading_index(i: int) -> int {
    8 * (7 - i / 8) + i % 8
}

/// The side a side-to-move field names.
pub open spec fn side_of(f: Seq<u8>) -> Option<Color> {
    if f =~= seq![119u8] {
        Some(Color::White)
    } else if f =~= seq![98u8] {
        Some(Color::Black)
    } else {
        None
    }
}

/// The bit of a castling letter `KQkq`, or 0.
pub open spec fn right_bit(c: u8) -> int {
    if c == 75 {
        1
    } else if c == 81 {
        2
    } else if c == 107 {
        4
    } else if c == 113 {
        8
    } else {
        0
    }
}

/// The castling bits a castling field names: `-` for none, else distinct
/// letters among `KQkq`.
pub open spec fn rights_of(f: Seq<u8>) -> Option<u8> {
    if f =~= seq![45u8] {
        Some(0)
    } else if (forall|i: int| 0 <= i < f.len() ==> right_bit(#[trigger] f[i]) != 0) && (forall|
        i: int,
        j: int,
    | 0 <= i < j < f.len() ==> f[i] != f[j]) {
        Some(
            ((if f.contains(75) {
                1int
            } else {
                0
            }) + (if f.contains(81) {
                2int
            } else {
                0
            }) + (if f.contains(107) {
                4int
            } else {
                0
            }) + (if f.contains(113) {
                8int
            } else {
                0
            })) as u8,
        )
    } else {
        None
    }
}

/// The square an en passant field names: `-` for none, else a file letter
/// and a rank digit.
pub open spec fn ep_of(f: Seq<u8>) -> Option<Option<int>> {
    if f =~= seq![45u8] {
        Some(None)
    } else if f.len() == 2 && 97 <= f[0] <= 104 && 49 <= f[1] <= 56 {
        Some(Some((f[1] - 49) * 8 + (f[0] - 97)))
    } else {
        None
    }
}

/// Whether `s` is a FEN record: exactly six whitespace-separated fields, a
/// placement, a side, castling rights, an en passant square, a halfmove
/// clock that fits a `u8`, and a nonzero fullmove number that fits a `u16`.
pub open spec fn fen_ok(s: Seq<u8>) -> bool {
    let w = words(s);
    &&& w.len() == 6
    &&& placement_ok(w[0])
    &&& side_of(w[1]) is Some
    &&& rights_of(w[2]) is Some
    &&& ep_of(w[3]) is Some
    &&& parse_unsigned(w[4], 255) is Some
    &&& parse_unsigned(w[5], 65535) is Some
    &&& parse_unsigned(w[5], 65535)->0 != 0
}

/// `b` is the position the FEN record `s` describes, with an empty history
/// and a key that matches it.
pub open spec fn fen_board(b: Board, s: Seq<u8>) -> bool {
    let w = words(s);
    let st = b.spec_state();
    &&& b.wf()
    &&& b.spec_mailbox() == Seq::new(64, |i: int| cells(w[0])[reading_index(i)])
    &&& st.spec_side() == side_of(w[1])->0
    &&& st.spec_castling().bits() == rights_of(w[2])->0
    &&& st.spec_ep() == (match ep_of(w[3])->0 {
        Some(i) => Some(Square::at(i)),
        None => None,
    })
    &&& st.spec_halfmove() == parse_unsigned(w[4], 255)->0
    &&& st.spec_fullmove() == parse_unsigned(w[5], 65535)->0
    &&& b.spec_history().len() == 0
}

/// The slashes of a prefix are no more than those of the whole.
proof fn lemma_slashes_grow(f: Seq<u8>, j: int)
    requires
        0 <= j <= f.len(),
    ensures
        slashes(f.take(j)) <= slashes(f),
    decreases f.len() - j,
{
    if j < f.len() {
        lemma_slashes_grow(f, j + 1);
        assert(f.take(j + 1).drop_last() =~= f.take(j));
    } else {
        assert(f.take(j) =~= f);
    }
}

/// A rank that already covers more than eight squares makes the text no
/// placement, whatever follows.
proof fn lemma_overfull(f: Seq<u8>, j: int)
    requires
        0 <= j <= f.len(),
        cells(f.take(j)).len() > 8 * (slashes(f.take(j)) + 1),
    ensures
        !placement_ok(f),
    decreases f.len() - j,
{
    if j == f.len() {
        assert(f.take(j) =~= f);
    } else if f[j] == 47 {
    } else {
        assert(f.take(j + 1).drop_last() =~= f.take(j));
        lemma_overfull(f, j + 1);
    }
}

/// Square `8 * (7 - rank) + file` is the one at reading position
/// `8 * rank + file`, and no other square is.
proof fn lemma_reading_index(rank: int, file: int)
    requires
        0 <= rank < 8,
        0 <= file < 8,
    ensures
        reading_index(8 * (7 - rank) + file) == 8 * rank + file,
        forall|i: int|
            0 <= i < 64 && #[trigger] reading_index(i) == 8 * rank + file ==> i == 8 * (7 - rank)
                + file,
{
}

/// The piece a placement letter stands for.
fn letter_piece_exec(c: u8) -> (p: Option<Piece>)
    ensures
        p == letter_piece(c),
{
    let (color, lower) = if 65 <= c && c <= 90 {
        (Color::White, c + 32)
    } else {
        (Color::Black, c)
    };
    let kind = match lower {
        112 => PieceType::Pawn,
        110 => PieceType::Knight,
        98 => PieceType::Bishop,
        114 => PieceType::Rook,
        113 => PieceType::Queen,
        107 => PieceType::King,
        _ => {
            return None;
        },
    };
    Some(Piece::new(color, kind))
}

/// Fills the empty `board` with the pieces of the placement in bytes `a..b`
/// of `s`; `false` when those bytes are not a placement.
#[verifier::rlimit(40)]
fn place_pieces(board: &mut Board, s: &[u8], a: usize, b: usize) -> (ok: bool)
    requires
        old(board).layout_ok(),
        old(board).spec_mailbox() == Seq::new(64, |i: int| None::<Piece>),
        a <= b <= s@.len(),
    ensures
        ok == placement_ok(s@.subrange(a as int, b as int)),
        final(board).layout_ok(),
        ok ==> final(board).spec_mailbox() == Seq::new(
            64,
            |i: int| cells(s@.subrange(a as int, b as int))[reading_index(i)],
        ),
        final(board).spec_history() == old(board).spec_history(),
        final(board).spec_state().spec_side() == old(board).spec_state().spec_side(),
        final(board).spec_state().spec_castling() == old(board).spec_state().spec_castling(),
        final(board).spec_state().spec_ep() == old(board).spec_state().spec_ep(),
        final(board).spec_state().spec_halfmove() == old(board).spec_state().spec_halfmove(),
        final(board).spec_state().spec_fullmove() == old(board).spec_state().spec_fullmove(),
{
    let ghost f = s@.subrange(a as int, b as int);
    let ghost st0 = board.spec_state();
    let mut k = a;
    let mut rank: u8 = 0;
    let mut file: u8 = 0;
    assert(f.take(0) =~= Seq::<u8>::empty());
    while k < b
        invariant
            a <= k <= b <= s@.len(),
            f == s@.subrange(a as int, b as int),
            rank <= 7,
            file <= 8,
            slashes(f.take(k - a)) == rank,
            cells(f.take(k - a)).len() == 8 * rank + file,
            forall|i: int| 0 <= i < k - a ==> placement_byte(#[trigger] f[i]),
            forall|i: int|
                0 <= i < k - a && #[trigger] f[i] == 47 ==> cells(f.take(i)).len() == 8 * (slashes(
                    f.take(i),
                ) + 1),
            board.layout_ok(),
            board.spec_mailbox().len() == 64,
            forall|i: int|
                0 <= i < 64 ==> #[trigger] board.spec_mailbox()[i] == (if reading_index(i) < 8
                    * rank + file {
                    cells(f.take(k - a))[reading_index(i)]
                } else {
                    None
                }),
            board.spec_history() == old(board).spec_history(),
            st0 == old(board).spec_state(),
            board.spec_state().spec_side() == st0.spec_side(),
            board.spec_state().spec_castling() == st0.spec_castling(),
            board.spec_state().spec_ep() == st0.spec_ep(),
            board.spec_state().spec_halfmove() == st0.spec_halfmove(),
            board.spec_state().spec_fullmove() == st0.spec_fullmove(),
        decreases b - k,
    {
        let c = s[k];
        let ghost j = k - a;
        let ghost pre = f.take(j);
        proof {
            assert(f.take(j + 1).drop_last() =~= pre);
            assert(f.take(j + 1).last() == c);
            assert(f[j] == c);
        }
        if c == 47 {
            if file != 8 {
                return false;
            }
            if rank == 7 {
                proof {
                    lemma_slashes_grow(f, j + 1);
                }
                return false;
            }
            rank = rank + 1;
            file = 0;
        } else if 49 <= c && c <= 56 {
            let n = c - 48;
            if file + n > 8 {
                proof {
                    lemma_overfull(f, j + 1);
                }
                return false;
            }
            file = file + n;
        } else {
            let piece = match letter_piece_exec(c) {
                Some(p) => p,
                None => {
                    return false;
                },
            };
            if file >= 8 {
                proof {
                    lemma_overfull(f, j + 1);
                }
                return false;
            }
            let ghost mb = board.spec_mailbox();
            proof {
                lemma_reading_index(rank as int, file as int);
            }
            board.add_piece(piece, Square::new_unchecked((7 - rank) * 8 + file));
            file = file + 1;
            proof {
                let cnt = 8 * rank + file - 1;
                let sq = 8 * (7 - rank) + file - 1;
                let nc = cells(f.take(j + 1));
                assert(nc =~= cells(pre).push(Some(piece)));
                assert forall|i: int| 0 <= i < 64 implies #[trigger] board.spec_mailbox()[i] == (
                if reading_index(i) < 8 * rank + file {
                    nc[reading_index(i)]
                } else {
                    None
                }) by {
                    if i != sq {
                        assert(board.spec_mailbox()[i] == mb[i]);
                    }
                }
            }
        }
        k = k + 1;
    }
    proof {
        assert(f.take(k - a) =~= f);
    }
    let ok = rank == 7 && file == 8;
    if ok {
        assert(board.spec_mailbox() =~= Seq::new(64, |i: int| cells(f)[reading_index(i)]));
    }
    ok
}

/// The side named by bytes `a..b` of `s`.
fn parse_side(s: &[u8], a: usize, b: usize) -> (r: Option<Color>)
    requires
        a <= b <= s@.len(),
    ensures
        r == side_of(s@.subrange(a as int, b as int)),
{
    let ghost f = s@.subrange(a as int, b as int);
    if b - a == 1 && s[a] == 119 {
        assert(f =~= seq![119u8]);
        Some(Color::White)
    } else if b - a == 1 && s[a] == 98 {
        assert(f =~= seq![98u8]);
        Some(Color::Black)
    } else {
        assert(!(f =~= seq![119u8]) && !(f =~= seq![98u8])) by {
            if f.len() == 1 {
                assert(f[0] == s[a as int]);
            }
        }
        None
    }
}

/// The castling bits named by bytes `a..b` of `s`.
fn parse_rights(s: &[u8], a: usize, b: usize) -> (r: Option<u8>)
    requires
        a <= b <= s@.len(),
    ensures
        r == rights_of(s@.subrange(a as int, b as int)),
{
    let ghost f = s@.subrange(a as int, b as int);
    if b - a == 1 && s[a] == 45 {
        assert(f =~= seq![45u8]);
        return Some(0);
    }
    assert(!(f =~= seq![45u8])) by {
        if f.len() == 1 {
            assert(f[0] == s[a as int]);
        }
    }
    let mut white_king = false;
    let mut white_queen = false;
    let mut black_king = false;
    let mut black_queen = false;
    let mut k = a;
    while k < b
        invariant
            a <= k <= b <= s@.len(),
            f == s@.subrange(a as int, b as int),
            !(f =~= seq![45u8]),
            forall|i: int| 0 <= i < k - a ==> right_bit(#[trigger] f[i]) != 0,
            forall|i: int, j: int| 0 <= i < j < k - a ==> f[i] != f[j],
            white_king == exists|i: int| 0 <= i < k - a && f[i] == 75,
            white_queen == exists|i: int| 0 <= i < k - a && f[i] == 81,
            black_king == exists|i: int| 0 <= i < k - a && f[i] == 107,
            black_queen == exists|i: int| 0 <= i < k - a && f[i] == 113,
        decreases b - k,
    {
        let c = s[k];
        let ghost j = k - a;
        assert(f[j] == c);
        let seen = if c == 75 {
            let seen = white_king;
            white_king = true;
            seen
        } else if c == 81 {
            let seen = white_queen;
            white_queen = true;
            seen
        } else if c == 107 {
            let seen = black_king;
            black_king = true;
            seen
        } else if c == 113 {
            let seen = black_queen;
            black_queen = true;
            seen
        } else {
            return None;
        };
        if seen {
            proof {
                let i = choose|i: int| 0 <= i < j && f[i] == c;
                assert(f[i] == f[j]);
            }
            return None;
        }
        k = k + 1;
    }
    proof {
        assert(f.contains(75) == white_king);
        assert(f.contains(81) == white_queen);
        assert(f.contains(107) == black_king);
        assert(f.contains(113) == black_queen);
    }
    let mut v: u8 = 0;
    if white_king {
        v = v + 1;
    }
    if white_queen {
        v = v + 2;
    }
    if black_king {
        v = v + 4;
    }
    if black_queen {
        v = v + 8;
    }
    Some(v)
}

/// The en passant square named by bytes `a..b` of `s`.
fn parse_ep(s: &[u8], a: usize, b: usize) -> (r: Option<Option<Square>>)
    requires
        a <= b <= s@.len(),
    ensures
        r is Some <==> ep_of(s@.subrange(a as int, b as int)) is Some,
        r matches Some(o) ==> o == (match ep_of(s@.subrange(a as int, b as int))->0 {
            Some(i) => Some(Square::at(i)),
            None => None,
        }),
{
    let ghost f = s@.subrange(a as int, b as int);
    if b - a == 1 && s[a] == 45 {
        assert(f =~= seq![45u8]);
        return Some(None);
    }
    assert(!(f =~= seq![45u8])) by {
        if f.len() == 1 {
            assert(f[0] == s[a as int]);
        }
    }
    if b - a != 2 {
        return None;
    }
    let (x, y) = (s[a], s[a + 1]);
    assert(f[0] == x && f[1] == y);
    if 97 <= x && x <= 104 && 49 <= y && y <= 56 {
        Some(Some(Square::new_unchecked((y - 49) * 8 + (x - 97))))
    } else {
        None
    }
}

impl Board {
    /// Parses a position from FEN text, given as its UTF-8 bytes: exactly
    /// when the text is a FEN record (see [`fen_ok`]) the result is the
    /// position it describes.
    pub fn from_fen(fen: &[u8]) -> (r: Result<Board, FenError>)
        ensures
            r is Ok <==> fen_ok(fen@),
            r matches Ok(b) ==> fen_board(b, fen@),
    {
        let w = split_words(fen);
        proof {
            lemma_word_ranges(fen@);
        }
        if w.len() != 6 {
            return Err(FenError);
        }
        let (a0, b0) = w[0];
        let (a1, b1) = w[1];
        let (a2, b2) = w[2];
        let (a3, b3) = w[3];
        let (a4, b4) = w[4];
        let (a5, b5) = w[5];
        let ghost ws = words(fen@);
        assert(ws[0] == fen@.subrange(a0 as int, b0 as int));
        assert(ws[1] == fen@.subrange(a1 as int, b1 as int));
        assert(ws[2] == fen@.subrange(a2 as int, b2 as int));
        assert(ws[3] == fen@.subrange(a3 as int, b3 as int));
        assert(ws[4] == fen@.subrange(a4 as int, b4 as int));
        assert(ws[5] == fen@.subrange(a5 as int, b5 as int));
        let side = match parse_side(fen, a1, b1) {
            Some(c) => c,
            None => {
                return Err(FenError);
            },
        };
        let rights = match parse_rights(fen, a2, b2) {
            Some(v) => v,
            None => {
                return Err(FenError);
            },
        };
        let ep = match parse_ep(fen, a3, b3) {
            Some(e) => e,
            None => {
                return Err(FenError);
            },
        };
        let halfmove = match parse_unsigned_exec(fen, a4, b4, 255) {
            Some(v) => v as u8,
            None => {
                return Err(FenError);
            },
        };
        let fullmove = match parse_unsigned_exec(fen, a5, b5, 65535) {
            Some(v) => v as u16,
            None => {
                return Err(FenError);
            },
        };
        if fullmove == 0 {
            return Err(FenError);
        }
        let castling = CastlingRights(rights);
        let state = State { side_to_move: side, castling, ep, halfmove, fullmove, zobrist: 0 };
        proof {
            castling.lemma_raw();
            state.lemma_fields();
        }
        let mut board = Board::empty(state);
        if !place_pieces(&mut board, fen, a0, b0) {
            return Err(FenError);
        }
        board.finish_setup();
        Ok(board)
    }
}

impl core::str::FromStr for Board {
    type Err = FenError;

    fn from_str(fen: &str) -> Result<Board, FenError> {
        Board::from_fen(fen.as_bytes())
    }
}

/// The FEN letter of a piece: `pnbrqk`, upper case for White.
pub open spec fn piece_letter(p: Piece) -> u8 {
    let lower: u8 = match p.spec_kind() {
        PieceType::Pawn => 112,
        PieceType::Knight => 110,
        PieceType::Bishop => 98,
        PieceType::Rook => 114,
        PieceType::Queen => 113,
        PieceType::King => 107,
    };
    if p.spec_color() == Color::White {
        (lower - 32) as u8
    } else {
        lower
    }
}

/// The digit for a run of `n` empty squares, or nothing when there is none.
pub open spec fn run_text(n: int) -> Seq<u8> {
    if n > 0 {
        seq![(48 + n) as u8]
    } else {
        Seq::empty()
    }
}

/// The text of rank `r` of `mb` from file `f` on, after a run of `empty`
/// empty squares: each piece's letter, each run of empty squares its length.
pub open spec fn rank_text_from(mb: Seq<Option<Piece>>, r: int, f: int, empty: int) -> Seq<u8>
    decreases 8 - f,
{
    if f >= 8 {
        run_text(empty)
    } else {
        match mb[8 * r + f] {
            Some(p) => run_text(empty) + seq![piece_letter(p)] + rank_text_from(mb, r, f + 1, 0),
            None => rank_text_from(mb, r, f + 1, empty + 1),
        }
    }
}

/// The texts of ranks `r` down to the first, separated by slashes.
pub open spec fn placement_text_from(mb: Seq<Option<Piece>>, r: int) -> Seq<u8>
    decreases r,
{
    if r <= 0 {
        rank_text_from(mb, 0, 0, 0)
    } else {
        rank_text_from(mb, r, 0, 0) + seq![47u8] + placement_text_from(mb, r - 1)
    }
}

/// The text of a castling-rights bitset: `-` for none, else `KQkq` in order.
pub open spec fn rights_text(bits: u8) -> Seq<u8> {
    if bits == 0 {
        seq![45u8]
    } else {
        (if bits & 1 != 0 {
            seq![75u8]
        } else {
            Seq::empty()
        }) + (if bits & 2 != 0 {
            seq![81u8]
        } else {
            Seq::empty()
        }) + (if bits & 4 != 0 {
            seq![107u8]
        } else {
            Seq::empty()
        }) + (if bits & 8 != 0 {
            seq![113u8]
        } else {
            Seq::empty()
        })
    }
}

/// The text of an en passant square: its name, or `-`.
pub open spec fn ep_text(ep: Option<Square>) -> Seq<u8> {
    match ep {
        Some(s) => seq![(97 + s.idx() % 8) as u8, (49 + s.idx() / 8) as u8],
        None => seq![45u8],
    }
}

/// The decimal digits of `n`.
pub open spec fn decimal(n: nat) -> Seq<u8>
    decreases n,
{
    if n < 10 {
        seq![(48 + n) as u8]
    } else {
        decimal(n / 10).push((48 + n % 10) as u8)
    }
}

/// The FEN record of a position: placement, side, castling rights, en
/// passant square, halfmove clock and fullmove number, separated by spaces.
pub open spec fn fen_text(mb: Seq<Option<Piece>>, st: State) -> Seq<u8> {
    placement_text_from(mb, 7) + seq![32u8] + (if st.spec_side() == Color::White {
        seq![119u8]
    } else {
        seq![98u8]
    }) + seq![32u8] + rights_text(st.spec_castling().bits()) + seq![32u8] + ep_text(st.spec_ep())
        + seq![32u8] + decimal(st.spec_halfmove() as nat) + seq![32u8] + decimal(
        st.spec_fullmove() as nat,
    )
}

/// The FEN letter of a piece.
fn piece_letter_exec(p: Piece) -> (c: u8)
    ensures
        c == piece_letter(p),
{
    let lower: u8 = match p.piece_type() {
        PieceType::Pawn => 112,
        PieceType::Knight => 110,
        PieceType::Bishop => 98,
        PieceType::Rook => 114,
        PieceType::Queen => 113,
        PieceType::King => 107,
    };
    if p.color() == Color::White {
        lower - 32
    } else {
        lower
    }
}

/// Appends the decimal digits of `n`.
fn push_decimal(out: &mut Vec<u8>, n: u16)
    ensures
        final(out)@ == old(out)@ + decimal(n as nat),
    decreases n,
{
    if n >= 10 {
        push_decimal(out, n / 10);
    }
    out.push(48 + (n % 10) as u8);
    proof {
        if n >= 10 {
            assert(decimal(n as nat) == decimal((n / 10) as nat).push((48 + n % 10) as u8));
        }
        assert(final(out)@ =~= old(out)@ + decimal(n as nat));
    }
}

impl Board {
    /// Writes the position as a FEN record (see [`fen_text`]).
    #[verifier::rlimit(40)]
    pub fn to_fen(&self) -> (t: Vec<u8>)
        ensures
            t@ == fen_text(self.spec_mailbox(), self.spec_state()),
    {
        let ghost mb = self.spec_mailbox();
        proof {
            self.lemma_mailbox_len();
        }
        let mut out: Vec<u8> = Vec::new();
        let mut i: u8 = 0;
        while i < 8
            invariant
                i <= 8,
                mb == self.spec_mailbox(),
                mb.len() == 64,
                out@ + (if i == 8 {
                    Seq::empty()
                } else {
                    (if i == 0 {
                        Seq::empty()
                    } else {
                        seq![47u8]
                    }) + placement_text_from(mb, 7 - i)
                }) == placement_text_from(mb, 7),
            decreases 8 - i,
        {
            let rank = 7 - i;
            let ghost r = rank as int;
            let ghost rest = if i == 0 {
                Seq::<u8>::empty()
            } else {
                seq![47u8]
            };
            if i != 0 {
                out.push(47);
            }
            let ghost start = out@;
            assert(out@ == (if i == 0 {
                Seq::<u8>::empty()
            } else {
                out@.drop_last()
            }) + rest);
            let mut empty: u8 = 0;
            let mut file: u8 = 0;
            while file < 8
                invariant
                    file <= 8,
                    empty <= file,
                    rank < 8,
                    r == rank as int,
                    mb == self.spec_mailbox(),
                    mb.len() == 64,
                    out@ + rank_text_from(mb, r, file as int, empty as int) == start + rank_text_from(
                        mb,
                        r,
                        0,
                        0,
                    ),
                decreases 8 - file,
            {
                let sq = Square::new_unchecked(rank * 8 + file);
                match self.piece_on(sq) {
                    Some(p) => {
                        let ghost before = out@;
                        if empty > 0 {
                            out.push(48 + empty);
                        }
                        out.push(piece_letter_exec(p));
                        assert(out@ =~= before + run_text(empty as int) + seq![piece_letter(p)]);
                        empty = 0;
                    },
                    None => {
                        empty = empty + 1;
                    },
                }
                file = file + 1;
            }
            let ghost before = out@;
            if empty > 0 {
                out.push(48 + empty);
            }
            assert(out@ =~= before + run_text(empty as int));
            assert(out@ =~= start + rank_text_from(mb, r, 0, 0));
            i = i + 1;
        }
        assert(out@ =~= placement_text_from(mb, 7));
        out.push(32);
        if self.state().side_to_move() == Color::White {
            out.push(119);
        } else {
            out.push(98);
        }
        out.push(32);
        let r = self.state().castling().as_u8();
        if r == 0 {
            out.push(45);
        } else {
            if r & 1 != 0 {
                out.push(75);
            }
            if r & 2 != 0 {
                out.push(81);
            }
            if r & 4 != 0 {
                out.push(107);
            }
            if r & 8 != 0 {
                out.push(113);
            }
        }
        out.push(32);
        match self.state().en_passant() {
            Some(s) => {
                out.push(97 + s.file());
                out.push(49 + s.rank());
            },
            None => {
                out.push(45);
            },
        }
        out.push(32);
        push_decimal(&mut out, self.state().halfmove_clock() as u16);
        out.push(32);
        push_decimal(&mut out, self.state().fullmove_number());
        assert(out@ =~= fen_text(mb, self.spec_state()));
        out
    }
}

/// Whether `p` is a well-formed piece (its byte names a color and a type).
pub open spec fn valid_piece(p: Piece) -> bool {
    p.byte() < 16 && p.byte() % 8 < 6
}

/// A piece's letter reads back as the piece.
proof fn lemma_letter_round_trip(p: Piece)
    requires
        valid_piece(p),
    ensures
        letter_piece(piece_letter(p)) == Some(p),
        placement_byte(piece_letter(p)),
        piece_letter(p) != 47,
        !is_run_digit(piece_letter(p)),
{
    p.lemma_of(p, p.spec_color(), p.spec_kind());
}

/// Cells and slashes of a concatenation.
proof fn lemma_cells_concat(a: Seq<u8>, b: Seq<u8>)
    ensures
        cells(a + b) == cells(a) + cells(b),
        slashes(a + b) == slashes(a) + slashes(b),
    decreases b.len(),
{
    if b.len() == 0 {
        assert(a + b =~= a);
        assert(cells(a) + cells(b) =~= cells(a));
    } else {
        lemma_cells_concat(a, b.drop_last());
        assert((a + b).drop_last() =~= a + b.drop_last());
        assert(cells(a) + cells(b) =~= cells(a) + cells(b.drop_last()) + byte_cells(b.last()));
    }
}

/// The cells and slashes of a single byte.
proof fn lemma_single(c: u8)
    ensures
        cells(seq![c]) == byte_cells(c),
        slashes(seq![c]) == if c == 47 {
            1int
        } else {
            0
        },
{
    let one = seq![c];
    let none = one.drop_last();
    assert(none =~= Seq::<u8>::empty());
    assert(one.last() == c);
    assert(cells(none) == Seq::<Option<Piece>>::empty());
    assert(slashes(none) == 0);
    assert(cells(one) == cells(none) + byte_cells(c));
    assert(Seq::<Option<Piece>>::empty() + byte_cells(c) =~= byte_cells(c));
}

/// The cells of a run digit.
proof fn lemma_run_cells(e: int)
    requires
        0 <= e <= 8,
    ensures
        cells(run_text(e)) == Seq::new(e as nat, |i: int| None::<Piece>),
        slashes(run_text(e)) == 0,
        forall|i: int| 0 <= i < run_text(e).len() ==> placement_byte(#[trigger] run_text(e)[i]) && run_text(e)[i] != 47,
{
    if e > 0 {
        lemma_single((48 + e) as u8);
        assert(cells(run_text(e)) =~= Seq::new(e as nat, |i: int| None::<Piece>));
    } else {
        assert(cells(run_text(e)) =~= Seq::new(e as nat, |i: int| None::<Piece>));
    }
}

/// A rank's text: placement bytes without slashes, covering the rank's
/// squares from file `f` on after `e` empty ones.
proof fn lemma_rank_text(mb: Seq<Option<Piece>>, r: int, f: int, e: int)
    requires
        mb.len() == 64,
        0 <= r < 8,
        0 <= f <= 8,
        0 <= e <= f,
        forall|i: int| 0 <= i < 64 && (#[trigger] mb[i]) is Some ==> valid_piece(mb[i]->0),
    ensures
        ({
            let t = rank_text_from(mb, r, f, e);
            &&& forall|i: int| 0 <= i < t.len() ==> placement_byte(#[trigger] t[i]) && t[i] != 47
            &&& slashes(t) == 0
            &&& cells(t) == Seq::new(e as nat, |i: int| None::<Piece>) + mb.subrange(8 * r + f, 8 * r + 8)
        }),
    decreases 8 - f,
{
    let t = rank_text_from(mb, r, f, e);
    if f >= 8 {
        lemma_run_cells(e);
        assert(mb.subrange(8 * r + f, 8 * r + 8) =~= Seq::<Option<Piece>>::empty());
        assert(Seq::new(e as nat, |i: int| None::<Piece>) + Seq::<Option<Piece>>::empty() =~= Seq::new(e as nat, |i: int| None::<Piece>));
    } else {
        match mb[8 * r + f] {
            Some(p) => {
                lemma_rank_text(mb, r, f + 1, 0);
                lemma_run_cells(e);
                lemma_letter_round_trip(p);
                let rest = rank_text_from(mb, r, f + 1, 0);
                let head = run_text(e) + seq![piece_letter(p)];
                assert(t == head + rest);
                lemma_cells_concat(run_text(e), seq![piece_letter(p)]);
                lemma_cells_concat(head, rest);
                lemma_single(piece_letter(p));
                assert(Seq::new(0, |i: int| None::<Piece>) + mb.subrange(8 * r + f + 1, 8 * r + 8) =~= mb.subrange(8 * r + f + 1, 8 * r + 8));
                assert(cells(t) =~= Seq::new(e as nat, |i: int| None::<Piece>) + mb.subrange(8 * r + f, 8 * r + 8));
                assert forall|i: int| 0 <= i < t.len() implies placement_byte(#[trigger] t[i]) && t[i] != 47 by {
                    if i < run_text(e).len() {
                        assert(t[i] == run_text(e)[i]);
                    } else if i < head.len() {
                        assert(t[i] == piece_letter(p));
                    } else {
                        assert(t[i] == rest[i - head.len()]);
                    }
                }
            },
            None => {
                lemma_rank_text(mb, r, f + 1, e + 1);
                assert(Seq::new((e + 1) as nat, |i: int| None::<Piece>) + mb.subrange(8 * r + f + 1, 8 * r + 8)
                    =~= Seq::new(e as nat, |i: int| None::<Piece>) + mb.subrange(8 * r + f, 8 * r + 8));
            },
        }
    }
}

/// The squares of ranks `r` down to the first, in reading order.
pub open spec fn ranks_cells(mb: Seq<Option<Piece>>, r: int) -> Seq<Option<Piece>>
    decreases r,
{
    if r <= 0 {
        mb.subrange(0, 8)
    } else {
        mb.subrange(8 * r, 8 * r + 8) + ranks_cells(mb, r - 1)
    }
}

#[verifier::rlimit(60)]
/// The placement text of ranks `r` down to the first is a placement of those
/// ranks: valid bytes, `r` slashes each closing a rank of eight squares, and
/// the ranks' squares in reading order.
proof fn lemma_placement_text(mb: Seq<Option<Piece>>, r: int)
    requires
        mb.len() == 64,
        0 <= r < 8,
        forall|i: int| 0 <= i < 64 && (#[trigger] mb[i]) is Some ==> valid_piece(mb[i]->0),
    ensures
        ({
            let t = placement_text_from(mb, r);
            &&& forall|i: int| 0 <= i < t.len() ==> placement_byte(#[trigger] t[i])
            &&& forall|i: int|
                0 <= i < t.len() && #[trigger] t[i] == 47 ==> cells(t.take(i)).len() == 8 * (slashes(
                    t.take(i),
                ) + 1)
            &&& slashes(t) == r
            &&& cells(t) == ranks_cells(mb, r)
            &&& cells(t).len() == 8 * (r + 1)
        }),
    decreases r,
{
    let t = placement_text_from(mb, r);
    lemma_rank_text(mb, r, 0, 0);
    let head = rank_text_from(mb, r, 0, 0);
    assert(Seq::new(0, |i: int| None::<Piece>) + mb.subrange(8 * r, 8 * r + 8) =~= mb.subrange(8 * r, 8 * r + 8));
    if r <= 0 {
        assert forall|i: int| 0 <= i < t.len() && #[trigger] t[i] == 47 implies cells(t.take(i)).len() == 8 * (slashes(t.take(i)) + 1) by {
            assert(t[i] != 47);
        }
    } else {
        lemma_placement_text(mb, r - 1);
        let rest = placement_text_from(mb, r - 1);
        let hs = head + seq![47u8];
        assert(t == hs + rest);
        lemma_cells_concat(head, seq![47u8]);
        lemma_cells_concat(hs, rest);
        lemma_single(47u8);
        assert(cells(hs) =~= cells(head));
        assert forall|i: int| 0 <= i < t.len() implies placement_byte(#[trigger] t[i]) by {
            if i < head.len() {
                assert(t[i] == head[i]);
            } else if i == head.len() {
                assert(t[i] == 47);
            } else {
                assert(t[i] == rest[i - hs.len()]);
            }
        }
        assert forall|i: int| 0 <= i < t.len() && #[trigger] t[i] == 47 implies cells(t.take(i)).len() == 8 * (slashes(t.take(i)) + 1) by {
            if i < head.len() {
                assert(t[i] == head[i]);
            } else if i == head.len() {
                assert(t.take(i) =~= head);
            } else {
                let j = i - hs.len();
                assert(t[i] == rest[j]);
                assert(t.take(i) =~= hs + rest.take(j));
                lemma_cells_concat(hs, rest.take(j));
                lemma_cells_concat(head, seq![47u8]);
            }
        }
    }
}

/// Whether `b` is a printable ASCII byte other than a space: one that never
/// starts a whitespace character.
pub open spec fn plain(b: u8) -> bool {
    33 <= b < 127
}

/// A run of plain bytes from `i` to `e` ends the word begun at `start` (or
/// at `i`) at `e`, where a space or the end of the text follows.
proof fn lemma_word_at(s: Seq<u8>, i: int, e: int, start: Option<int>)
    requires
        0 <= i <= e <= s.len(),
        forall|j: int| i <= j < e ==> plain(#[trigger] s[j]),
        start is Some || i < e,
        e == s.len() || s[e] == 32,
    ensures
        ({
            let a = match start {
                Some(a) => a,
                None => i,
            };
            &&& e < s.len() ==> words_from(s, i, start) == seq![(a, e)] + words_from(s, e + 1, None)
            &&& e == s.len() ==> words_from(s, i, start) == seq![(a, e)]
        }),
    decreases e - i,
{
    if i < e {
        let st = if start is Some {
            start
        } else {
            Some(i)
        };
        assert(ws_len(s, i) == 0);
        lemma_word_at(s, i + 1, e, st);
    } else {
        if e < s.len() {
            assert(ws_len(s, e) == 1);
            assert(words_from(s, e, start) == seq![(start->0, e)] + words_from(s, e + 1, None));
        }
    }
}

/// Whether every byte of `t` is plain and there is at least one.
pub open spec fn plain_word(t: Seq<u8>) -> bool {
    t.len() > 0 && forall|j: int| 0 <= j < t.len() ==> plain(#[trigger] t[j])
}

/// Six plain words joined by single spaces are read back as those words.
proof fn lemma_six_words(
    a: Seq<u8>,
    b: Seq<u8>,
    c: Seq<u8>,
    d: Seq<u8>,
    e: Seq<u8>,
    f: Seq<u8>,
)
    requires
        plain_word(a),
        plain_word(b),
        plain_word(c),
        plain_word(d),
        plain_word(e),
        plain_word(f),
    ensures
        words(a + seq![32u8] + b + seq![32u8] + c + seq![32u8] + d + seq![32u8] + e + seq![32u8] + f)
            == seq![a, b, c, d, e, f],
{
    let sp = seq![32u8];
    let s = a + sp + b + sp + c + sp + d + sp + e + sp + f;
    let o1: int = a.len() as int + 1;
    let o2: int = o1 + b.len() + 1;
    let o3: int = o2 + c.len() + 1;
    let o4: int = o3 + d.len() + 1;
    let o5: int = o4 + e.len() + 1;
    assert(s.len() == o5 + f.len());
    assert(s.subrange(0, a.len() as int) =~= a);
    assert(s.subrange(o1, o1 + b.len()) =~= b);
    assert(s.subrange(o2, o2 + c.len()) =~= c);
    assert(s.subrange(o3, o3 + d.len()) =~= d);
    assert(s.subrange(o4, o4 + e.len()) =~= e);
    assert(s.subrange(o5, o5 + f.len()) =~= f);
    assert(s[a.len() as int] == 32);
    assert(s[o1 + b.len()] == 32);
    assert(s[o2 + c.len()] == 32);
    assert(s[o3 + d.len()] == 32);
    assert(s[o4 + e.len()] == 32);
    assert forall|j: int| 0 <= j < a.len() implies plain(#[trigger] s[j]) by {
        assert(s[j] == a[j]);
    }
    assert forall|j: int| o1 <= j < o1 + b.len() implies plain(#[trigger] s[j]) by {
        assert(s[j] == b[j - o1]);
    }
    assert forall|j: int| o2 <= j < o2 + c.len() implies plain(#[trigger] s[j]) by {
        assert(s[j] == c[j - o2]);
    }
    assert forall|j: int| o3 <= j < o3 + d.len() implies plain(#[trigger] s[j]) by {
        assert(s[j] == d[j - o3]);
    }
    assert forall|j: int| o4 <= j < o4 + e.len() implies plain(#[trigger] s[j]) by {
        assert(s[j] == e[j - o4]);
    }
    assert forall|j: int| o5 <= j < o5 + f.len() implies plain(#[trigger] s[j]) by {
        assert(s[j] == f[j - o5]);
    }
    lemma_word_at(s, 0, a.len() as int, None);
    lemma_word_at(s, o1, o1 + b.len(), None);
    lemma_word_at(s, o2, o2 + c.len(), None);
    lemma_word_at(s, o3, o3 + d.len(), None);
    lemma_word_at(s, o4, o4 + e.len(), None);
    lemma_word_at(s, o5, o5 + f.len(), None);
    let rs = seq![
        (0int, a.len() as int),
        (o1, o1 + b.len()),
        (o2, o2 + c.len()),
        (o3, o3 + d.len()),
        (o4, o4 + e.len()),
        (o5, o5 + f.len()),
    ];
    assert(word_ranges(s) =~= rs);
    assert(words(s) =~= seq![a, b, c, d, e, f]);
}

/// The decimal digits of a number read back as the number.
proof fn lemma_decimal(n: nat)
    ensures
        decimal(n).len() > 0,
        all_digits(decimal(n)),
        digits_value(decimal(n)) == n,
        decimal(n)[0] != 43,
        plain_word(decimal(n)),
    decreases n,
{
    let d = decimal(n);
    if n >= 10 {
        lemma_decimal(n / 10);
        assert(d.drop_last() =~= decimal(n / 10));
        assert(d.last() == 48 + n % 10);
        assert(n == 10 * (n / 10) + n % 10);
        assert(d[0] == decimal(n / 10)[0]);
        assert forall|j: int| 0 <= j < d.len() implies is_digit(#[trigger] d[j]) && plain(d[j]) by {
            if j < d.len() - 1 {
                assert(d[j] == decimal(n / 10)[j]);
            }
        }
    } else {
        assert(d.drop_last() =~= Seq::<u8>::empty());
        assert(digits_value(d.drop_last()) == 0);
    }
}

/// A number's digits parse back as the number when it fits.
proof fn lemma_parse_decimal(n: nat, max: int)
    requires
        n <= max,
    ensures
        parse_unsigned(decimal(n), max) == Some(n as int),
{
    lemma_decimal(n);
    assert(unsigned_digits(decimal(n)) == decimal(n));
}

/// The four castling bits of a value below 16.
proof fn lemma_rights_bits(b: u8)
    by (bit_vector)
    requires
        b < 16,
    ensures
        b == (if b & 1 != 0 {
            1u8
        } else {
            0u8
        }) + (if b & 2 != 0 {
            2u8
        } else {
            0u8
        }) + (if b & 4 != 0 {
            4u8
        } else {
            0u8
        }) + (if b & 8 != 0 {
            8u8
        } else {
            0u8
        }),
{
}

/// The text of a castling bitset below 16 reads back as the bitset.
proof fn lemma_rights_round_trip(b: u8)
    requires
        b < 16,
    ensures
        rights_of(rights_text(b)) == Some(b),
        plain_word(rights_text(b)),
{
    lemma_rights_bits(b);
    let t = rights_text(b);
    if b != 0 {
        let l1: int = if b & 1 != 0 {
            1
        } else {
            0
        };
        let l2: int = if b & 2 != 0 {
            1
        } else {
            0
        };
        let l4: int = if b & 4 != 0 {
            1
        } else {
            0
        };
        let l8: int = if b & 8 != 0 {
            1
        } else {
            0
        };
        assert(t.len() == l1 + l2 + l4 + l8);
        assert forall|i: int| 0 <= i < t.len() implies #[trigger] t[i] == if i < l1 {
            75u8
        } else if i < l1 + l2 {
            81u8
        } else if i < l1 + l2 + l4 {
            107u8
        } else {
            113u8
        } by {}
        assert(!(t =~= seq![45u8])) by {
            if t.len() == 1 {
                assert(t[0] != 45);
            }
        }
        assert forall|i: int, j: int| 0 <= i < j < t.len() implies t[i] != t[j] by {}
        assert(t.contains(75) == (l1 == 1)) by {
            if l1 == 1 {
                assert(t[0] == 75);
            }
        }
        assert(t.contains(81) == (l2 == 1)) by {
            if l2 == 1 {
                assert(t[l1] == 81);
            }
        }
        assert(t.contains(107) == (l4 == 1)) by {
            if l4 == 1 {
                assert(t[l1 + l2] == 107);
            }
        }
        assert(t.contains(113) == (l8 == 1)) by {
            if l8 == 1 {
                assert(t[l1 + l2 + l4] == 113);
            }
        }
    } else {
        assert(t =~= seq![45u8]);
    }
}

/// The text of an en passant square reads back as the square.
proof fn lemma_ep_round_trip(ep: Option<Square>)
    requires
        ep matches Some(s) ==> 0 <= s.idx() < 64,
    ensures
        ep_of(ep_text(ep)) is Some,
        (match ep_of(ep_text(ep))->0 {
            Some(i) => Some(Square::at(i)),
            None => None,
        }) == ep,
        plain_word(ep_text(ep)),
{
    match ep {
        Some(s) => {
            s.lemma_at(s.idx());
            let t = ep_text(ep);
            assert(!(t =~= seq![45u8]));
            assert((t[1] - 49) * 8 + (t[0] - 97) == s.idx());
        },
        None => {
            assert(ep_text(ep) =~= seq![45u8]);
        },
    }
}

/// A well-formed placement's text is plain.
proof fn lemma_placement_plain(mb: Seq<Option<Piece>>)
    requires
        mb.len() == 64,
        forall|i: int| 0 <= i < 64 && (#[trigger] mb[i]) is Some ==> valid_piece(mb[i]->0),
    ensures
        plain_word(placement_text_from(mb, 7)),
        placement_ok(placement_text_from(mb, 7)),
        Seq::new(64, |i: int| cells(placement_text_from(mb, 7))[reading_index(i)]) == mb,
{
    let t = placement_text_from(mb, 7);
    lemma_placement_text(mb, 7);
    assert forall|j: int| 0 <= j < t.len() implies plain(#[trigger] t[j]) by {
        assert(placement_byte(t[j]));
        if letter_piece(t[j]) is Some {
        }
    }
    assert(t.len() > 0) by {
        if t.len() == 0 {
            assert(t =~= Seq::<u8>::empty());
            assert(cells(t).len() == 0);
        }
    }
    let rc = ranks_cells(mb, 7);
    assert forall|i: int| 0 <= i < 64 implies rc[reading_index(i)] == mb[i] by {
        lemma_ranks_cells(mb, 7, i);
    }
    assert(Seq::new(64, |i: int| cells(t)[reading_index(i)]) =~= mb);
}

/// Square `i` of rank `r` or below sits at its reading position in the
/// ranks' squares.
proof fn lemma_ranks_cells(mb: Seq<Option<Piece>>, r: int, i: int)
    requires
        mb.len() == 64,
        0 <= r < 8,
        0 <= i < 8 * (r + 1),
    ensures
        ranks_cells(mb, r).len() == 8 * (r + 1),
        ranks_cells(mb, r)[8 * (r - i / 8) + i % 8] == mb[i],
    decreases r,
{
    if r > 0 {
        if i / 8 < r {
            lemma_ranks_cells(mb, r - 1, i);
        } else {
            lemma_ranks_cells(mb, r - 1, 0);
        }
    }
}

/// Writing a position as FEN and reading it back gives the position: the
/// record is accepted, and any board read from it has the same pieces and
/// the same state (with its key). This holds for every consistent board
/// whose castling bits are among the four rights and whose fullmove number
/// is at least 1, which FEN requires.
pub proof fn lemma_fen_round_trip(b: Board, b2: Board)
    requires
        b.wf(),
        b.spec_state().spec_castling().bits() < 16,
        b.spec_state().spec_fullmove() >= 1,
        b.spec_state().spec_ep() matches Some(s) ==> 0 <= s.idx() < 64,
    ensures
        fen_ok(fen_text(b.spec_mailbox(), b.spec_state())),
        fen_board(b2, fen_text(b.spec_mailbox(), b.spec_state())) ==> b2.spec_mailbox()
            == b.spec_mailbox() && b2.spec_state() == b.spec_state(),
{
    let mb = b.spec_mailbox();
    let st = b.spec_state();
    b.lemma_mailbox_len();
    b.lemma_wf_layout();
    b.lemma_valid_pieces();
    let p = placement_text_from(mb, 7);
    let side = if st.spec_side() == Color::White {
        seq![119u8]
    } else {
        seq![98u8]
    };
    let r = rights_text(st.spec_castling().bits());
    let e = ep_text(st.spec_ep());
    let h = decimal(st.spec_halfmove() as nat);
    let f = decimal(st.spec_fullmove() as nat);
    lemma_placement_plain(mb);
    lemma_rights_round_trip(st.spec_castling().bits());
    lemma_ep_round_trip(st.spec_ep());
    lemma_decimal(st.spec_halfmove() as nat);
    lemma_decimal(st.spec_fullmove() as nat);
    lemma_parse_decimal(st.spec_halfmove() as nat, 255);
    lemma_parse_decimal(st.spec_fullmove() as nat, 65535);
    assert(plain_word(side));
    lemma_six_words(p, side, r, e, h, f);
    let t = fen_text(mb, st);
    assert(t =~= p + seq![32u8] + side + seq![32u8] + r + seq![32u8] + e + seq![32u8] + h + seq![32u8] + f);
    if st.spec_side() == Color::White {
        assert(side =~= seq![119u8]);
    } else {
        assert(!(side =~= seq![119u8])) by {
            assert(side[0] != 119);
        }
        assert(side =~= seq![98u8]);
    }
    assert(side_of(side) == Some(st.spec_side()));
    if fen_board(b2, t) {
        let st2 = b2.spec_state();
        b2.lemma_mailbox_len();
        st2.spec_castling().lemma_bits(st.spec_castling().bits());
        st.spec_castling().lemma_bits(st.spec_castling().bits());
        assert(st2.spec_castling() == st.spec_castling()) by {
            st2.spec_castling().lemma_bits(st2.spec_castling().bits());
        }
        assert(b2.spec_mailbox() =~= mb);
        b.lemma_key(b2);
        st.lemma_of(st.spec_side(), st.spec_castling(), st.spec_ep(), st.spec_halfmove(), st.spec_fullmove(), st.spec_zobrist());
        st2.lemma_of(st.spec_side(), st.spec_castling(), st.spec_ep(), st.spec_halfmove(), st.spec_fullmove(), st.spec_zobrist());
    }
}

/// A canonical record, one written from a position, read back and written
/// again is the same text: printing a parsed canonical FEN gives it back.
pub proof fn lemma_fen_canonical(b: Board, b2: Board)
    requires
        b.wf(),
        b.spec_state().spec_castling().bits() < 16,
        b.spec_state().spec_fullmove() >= 1,
        b.spec_state().spec_ep() matches Some(s) ==> 0 <= s.idx() < 64,
        fen_board(b2, fen_text(b.spec_mailbox(), b.spec_state())),
    ensures
        fen_text(b2.spec_mailbox(), b2.spec_state()) == fen_text(b.spec_mailbox(), b.spec_state()),
{
    lemma_fen_round_trip(b, b2);
}

} // verus!
