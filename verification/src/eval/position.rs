//! The static evaluation of a position.
use vstd::prelude::*;
use crate::board::{Bitboard, Board, Color, Piece, PieceType, Square};
use crate::board::piece::{kind_index, other};
use crate::bits::{bit, bit_set, lemma_mask_bits};
use crate::movegen::attacks::{dist, pawn_attacks, pawn_step};
use crate::movegen::gen::{owns, reach, reach_set};
use crate::eval::{
    Accumulator, DOUBLED_EG, DOUBLED_MG, EG_TABLE, ISOLATED_EG, ISOLATED_MG, MG_TABLE, MOBILITY_EG,
    MOBILITY_MG, PASSED_EG, PASSED_MG, PHASE_WEIGHT, ROOK_OPEN_EG, ROOK_OPEN_MG, ROOK_SEMI_EG,
    ROOK_SEMI_MG, TEMPO, applied, blend, blended, signed, terms_of,
};
use crate::eval::sums::{
    board_sum, lemma_sum_bound, lemma_summing_done, lemma_summing_start, lemma_summing_step,
    set_sum, summing,
};

verus! {

/// Every piece-square entry lies in `-100..=1100`.
#[verifier::spinoff_prover]
#[verifier::rlimit(100)]
pub proof fn lemma_table_bounds()
    ensures
        forall|k: int, x: int|
            0 <= k < 6 && 0 <= x < 64 ==> -100 <= #[trigger] MG_TABLE@[k]@[x] <= 1100 && -100
                <= EG_TABLE@[k]@[x] <= 1100,
{
    assert forall|k: int, x: int| 0 <= k < 6 && 0 <= x < 64 implies -100 <= #[trigger] MG_TABLE@[k]@[x]
        <= 1100 && -100 <= EG_TABLE@[k]@[x] <= 1100 by {
        assert(x == 0 || x == 1 || x == 2 || x == 3 || x == 4 || x == 5 || x == 6 || x == 7 || x == 8 || x == 9 || x == 10 || x == 11 || x == 12 || x == 13 || x == 14 || x == 15 || x == 16 || x == 17 || x == 18 || x == 19 || x == 20 || x == 21 || x == 22 || x == 23 || x == 24 || x == 25 || x == 26 || x == 27 || x == 28 || x == 29 || x == 30 || x == 31 || x == 32 || x == 33 || x == 34 || x == 35 || x == 36 || x == 37 || x == 38 || x == 39 || x == 40 || x == 41 || x == 42 || x == 43 || x == 44 || x == 45 || x == 46 || x == 47 || x == 48 || x == 49 || x == 50 || x == 51 || x == 52 || x == 53 || x == 54 || x == 55 || x == 56 || x == 57 || x == 58 || x == 59 || x == 60 || x == 61 || x == 62 || x == 63);
    }
}

/// The midgame piece-square score (material included) of square `i`, White
/// positive.
pub open spec fn psq_mg_at(mb: Seq<Option<Piece>>, i: int) -> int {
    if mb[i] is Some {
        let (k, x, sign) = terms_of(mb[i]->0, i);
        signed(MG_TABLE@[k]@[x] as int, sign)
    } else {
        0
    }
}

/// The endgame piece-square score of square `i`, White positive.
pub open spec fn psq_eg_at(mb: Seq<Option<Piece>>, i: int) -> int {
    if mb[i] is Some {
        let (k, x, sign) = terms_of(mb[i]->0, i);
        signed(EG_TABLE@[k]@[x] as int, sign)
    } else {
        0
    }
}

/// The game-phase weight of the piece on square `i`.
pub open spec fn phase_at(mb: Seq<Option<Piece>>, i: int) -> int {
    if mb[i] is Some {
        PHASE_WEIGHT@[kind_index(mb[i]->0.spec_kind()) as int] as int
    } else {
        0
    }
}

/// Each square's piece-square and phase terms are small.
pub proof fn lemma_square_terms(mb: Seq<Option<Piece>>)
    ensures
        forall|i: int|
            0 <= i < 64 ==> -1100 <= #[trigger] psq_mg_at(mb, i) <= 1100 && -1100 <= psq_eg_at(mb, i)
                <= 1100 && 0 <= phase_at(mb, i) <= 4,
{
    lemma_table_bounds();
    assert forall|i: int| 0 <= i < 64 implies -1100 <= #[trigger] psq_mg_at(mb, i) <= 1100 && -1100
        <= psq_eg_at(mb, i) <= 1100 && 0 <= phase_at(mb, i) <= 4 by {
        if mb[i] is Some {
            let (k, x, sign) = terms_of(mb[i]->0, i);
            assert(0 <= k < 6 && 0 <= x < 64);
            assert(-100 <= MG_TABLE@[k]@[x] <= 1100);
        }
    }
}

/// The occupied squares of `mb`.
pub open spec fn occupied_set(mb: Seq<Option<Piece>>) -> Set<int> {
    Set::new(|i: int| 0 <= i < 64 && mb[i] is Some)
}

/// Scans the board once: the midgame and endgame piece-square scores and
/// the raw game phase, summed over every piece.
#[verifier::rlimit(40)]
pub fn scan(board: &Board) -> (acc: Accumulator)
    requires
        board.layout_ok(),
    ensures
        acc.mg == board_sum(occupied_set(board.spec_mailbox()), |i: int| psq_mg_at(board.spec_mailbox(), i)),
        acc.eg == board_sum(occupied_set(board.spec_mailbox()), |i: int| psq_eg_at(board.spec_mailbox(), i)),
        acc.phase == board_sum(occupied_set(board.spec_mailbox()), |i: int| phase_at(board.spec_mailbox(), i)),
        -70400 <= acc.mg <= 70400,
        -70400 <= acc.eg <= 70400,
        0 <= acc.phase <= 256,
{
    let ghost mb = board.spec_mailbox();
    let ghost occ_set = occupied_set(mb);
    let ghost fm = |i: int| psq_mg_at(mb, i);
    let ghost fe = |i: int| psq_eg_at(mb, i);
    let ghost fp = |i: int| phase_at(mb, i);
    let occ = board.occupied();
    assert(occ@ =~= occ_set);
    let mut rest = occ;
    let mut acc = Accumulator { mg: 0, eg: 0, phase: 0 };
    let ghost mut lo: int = 0;
    proof {
        lemma_table_bounds();
        lemma_square_terms(mb);
        lemma_summing_start(occ_set, fm);
        lemma_summing_start(occ_set, fe);
        lemma_summing_start(occ_set, fp);
    }
    loop
        invariant
            mb == board.spec_mailbox(),
            occ_set == occupied_set(mb),
            fm == (|i: int| psq_mg_at(mb, i)),
            fe == (|i: int| psq_eg_at(mb, i)),
            fp == (|i: int| phase_at(mb, i)),
            forall|k: int, x: int|
                0 <= k < 6 && 0 <= x < 64 ==> -100 <= #[trigger] MG_TABLE@[k]@[x] <= 1100 && -100
                    <= EG_TABLE@[k]@[x] <= 1100,
            forall|i: int|
                0 <= i < 64 ==> -1100 <= #[trigger] psq_mg_at(mb, i) <= 1100 && -1100 <= psq_eg_at(
                    mb,
                    i,
                ) <= 1100 && 0 <= phase_at(mb, i) <= 4,
            summing(occ_set, rest@, lo, acc.mg as int, fm),
            summing(occ_set, rest@, lo, acc.eg as int, fe),
            summing(occ_set, rest@, lo, acc.phase as int, fp),
        ensures
            rest@ == Set::<int>::empty(),
            summing(occ_set, rest@, lo, acc.mg as int, fm),
            summing(occ_set, rest@, lo, acc.eg as int, fe),
            summing(occ_set, rest@, lo, acc.phase as int, fp),
        decreases 64 - lo,
    {
        proof {
            lemma_sum_bound(occ_set, fm, lo, -1100, 1100);
            lemma_sum_bound(occ_set, fe, lo, -1100, 1100);
            lemma_sum_bound(occ_set, fp, lo, 0, 4);
        }
        let ghost rest0 = rest@;
        match rest.next() {
            None => {
                break;
            },
            Some(sq) => {
                proof {
                    lemma_summing_step(occ_set, rest0, lo, acc.mg as int, fm, sq.idx());
                    lemma_summing_step(occ_set, rest0, lo, acc.eg as int, fe, sq.idx());
                    lemma_summing_step(occ_set, rest0, lo, acc.phase as int, fp, sq.idx());
                }
                match board.piece_on(sq) {
                    Some(piece) => {
                        proof {
                            let (k, x, sign) = terms_of(piece, sq.idx());
                            assert(0 <= k < 6 && 0 <= x < 64);
                        }
                        acc.add(piece, sq);
                    },
                    None => {},
                }
                proof {
                    lo = sq.idx() + 1;
                }
            },
        }
    }
    proof {
        lemma_summing_done(occ_set, rest@, lo, acc.mg as int, fm);
        lemma_summing_done(occ_set, rest@, lo, acc.eg as int, fe);
        lemma_summing_done(occ_set, rest@, lo, acc.phase as int, fp);
        lemma_sum_bound(occ_set, fm, 64, -1100, 1100);
        lemma_sum_bound(occ_set, fe, 64, -1100, 1100);
        lemma_sum_bound(occ_set, fp, 64, 0, 4);
    }
    acc
}

/// The squares of file `f`.
pub open spec fn file_set(f: int) -> Set<int> {
    Set::new(|j: int| 0 <= j < 64 && j % 8 == f)
}

/// The squares of the files beside file `f`.
pub open spec fn beside_set(f: int) -> Set<int> {
    Set::new(|j: int| 0 <= j < 64 && dist(j % 8, f) == 1)
}

/// The squares strictly ahead of rank `r` for `c`: above it for White,
/// below it for Black.
pub open spec fn ahead_set(c: Color, r: int) -> Set<int> {
    Set::new(
        |j: int|
            0 <= j < 64 && if c == Color::White {
                j / 8 > r
            } else {
                j / 8 < r
            },
    )
}

const FILE_A: u64 = 0x0101_0101_0101_0101;

/// The squares of file `file`.
fn file_bb(file: u8) -> (b: Bitboard)
    requires
        file < 8,
    ensures
        b@ == file_set(file as int),
{
    let b = Bitboard::new(FILE_A << file);
    proof {
        assert forall|j: int| #[trigger] b@.contains(j) == file_set(file as int).contains(j) by {
            if 0 <= j < 64 {
                lemma_mask_bits(file as u64, 0, j as u64);
            }
        }
        assert(b@ =~= file_set(file as int));
    }
    b
}

/// The squares of the files beside `file`.
fn beside_bb(file: u8) -> (b: Bitboard)
    requires
        file < 8,
    ensures
        b@ == beside_set(file as int),
{
    let f = FILE_A << file;
    let b = Bitboard::new(((f << 1u64) & !FILE_A) | ((f >> 1u64) & !(FILE_A << 7u64)));
    proof {
        assert forall|j: int| #[trigger] b@.contains(j) == beside_set(file as int).contains(j) by {
            if 0 <= j < 64 {
                lemma_mask_bits(file as u64, 0, j as u64);
            }
        }
        assert(b@ =~= beside_set(file as int));
    }
    b
}

/// The squares strictly ahead of `sq`'s rank for `color`.
fn ahead_bb(sq: Square, color: Color) -> (b: Bitboard)
    ensures
        b@ == ahead_set(color, sq.idx() / 8),
{
    let rank = sq.rank();
    let bits: u64 = match color {
        Color::White => if rank == 7 {
            0
        } else {
            u64::MAX << ((rank + 1) * 8) as u64
        },
        Color::Black => if rank == 0 {
            0
        } else {
            u64::MAX >> ((8 - rank) * 8) as u64
        },
    };
    let b = Bitboard::new(bits);
    proof {
        let r = rank as int;
        assert forall|j: int| #[trigger] b@.contains(j) == ahead_set(color, r).contains(j) by {
            if 0 <= j < 64 {
                crate::bits::lemma_u64_bit_at(0, 0, 0, j as u64);
                if color == Color::White && rank < 7 {
                    lemma_mask_bits(0, ((rank + 1) * 8) as u64, j as u64);
                } else if color == Color::Black && rank > 0 {
                    lemma_mask_bits(0, ((8 - rank) * 8) as u64, j as u64);
                }
            }
        }
        assert(b@ =~= ahead_set(color, r));
    }
    b
}

/// The squares attacked by a pawn of the side opposing `us`.
pub open spec fn their_pawn_span(mb: Seq<Option<Piece>>, us: Color) -> Set<int> {
    Set::new(
        |t: int|
            exists|p: int| owns(mb, p, other(us), PieceType::Pawn) && #[trigger] pawn_step(other(us), p, t),
    )
}

/// The squares `us`'s pieces may count as mobility: not held by one of its
/// own pieces, and not attacked by an enemy pawn.
pub open spec fn available(mb: Seq<Option<Piece>>, us: Color) -> Set<int> {
    Set::new(
        |t: int|
            0 <= t < 64 && !(mb[t] is Some && mb[t]->0.spec_color() == us) && !their_pawn_span(
                mb,
                us,
            ).contains(t),
    )
}

/// Whether a piece kind is scored for mobility: knights, bishops, rooks and
/// queens.
pub open spec fn mobile_kind(k: PieceType) -> bool {
    k == PieceType::Knight || k == PieceType::Bishop || k == PieceType::Rook || k == PieceType::Queen
}

/// The squares of `us`'s pieces scored for mobility.
pub open spec fn mobile_set(mb: Seq<Option<Piece>>, us: Color) -> Set<int> {
    Set::new(
        |i: int|
            0 <= i < 64 && mb[i] is Some && mb[i]->0.spec_color() == us && mobile_kind(
                mb[i]->0.spec_kind(),
            ),
    )
}

/// The squares a piece of kind `k` on `i` reaches over `occ`.
pub open spec fn reach_squares(k: PieceType, i: int, occ: Set<int>) -> Set<int> {
    Set::new(|t: int| reach(k, i, t, occ))
}

/// The number of available squares the piece on `i` reaches.
pub open spec fn mobility_count(mb: Seq<Option<Piece>>, us: Color, i: int) -> int {
    reach_squares(mb[i]->0.spec_kind(), i, occupied_set(mb)).intersect(available(mb, us)).len() as int
}

/// The midgame mobility term of the piece on `i`.
pub open spec fn mobility_mg_at(mb: Seq<Option<Piece>>, us: Color, i: int) -> int {
    MOBILITY_MG@[kind_index(mb[i]->0.spec_kind()) as int] * mobility_count(mb, us, i)
}

/// The endgame mobility term of the piece on `i`.
pub open spec fn mobility_eg_at(mb: Seq<Option<Piece>>, us: Color, i: int) -> int {
    MOBILITY_EG@[kind_index(mb[i]->0.spec_kind()) as int] * mobility_count(mb, us, i)
}

/// A sum of terms that are never negative is at least any one of them.
proof fn lemma_sum_at_least(s: Set<int>, f: spec_fn(int) -> int, n: int, k: int)
    requires
        0 <= k < n,
        s.contains(k),
        forall|i: int| 0 <= i < n && s.contains(i) ==> 0 <= #[trigger] f(i),
    ensures
        set_sum(s, f, n) >= f(k),
    decreases n,
{
    if n - 1 > k {
        lemma_sum_at_least(s, f, n - 1, k);
    } else {
        lemma_sum_nonneg(s, f, n - 1);
    }
}

/// A sum of terms that are never negative is not negative.
proof fn lemma_sum_nonneg(s: Set<int>, f: spec_fn(int) -> int, n: int)
    requires
        forall|i: int| 0 <= i < n && s.contains(i) ==> 0 <= #[trigger] f(i),
    ensures
        set_sum(s, f, n) >= 0,
    decreases n,
{
    if n > 0 {
        lemma_sum_nonneg(s, f, n - 1);
    }
}

/// Mobility is scored for every knight, bishop, rook and queen of the side,
/// and for no pawn or king: a queen of `us` adds its weights (one in the
/// middlegame, six in the endgame) for every available square it reaches,
/// so the side's mobility is at least that much.
pub proof fn mobility_counts_every_piece(mb: Seq<Option<Piece>>, us: Color, i: int)
    requires
        mb.len() == 64,
        0 <= i < 64,
        mb[i] is Some,
        mb[i]->0.spec_color() == us,
    ensures
        mobile_set(mb, us).contains(i) <==> (mb[i]->0.spec_kind() == PieceType::Knight || mb[i]->0.spec_kind()
            == PieceType::Bishop || mb[i]->0.spec_kind() == PieceType::Rook || mb[i]->0.spec_kind()
            == PieceType::Queen),
        mb[i]->0.spec_kind() == PieceType::Queen ==> {
            &&& mobility_mg_at(mb, us, i) == mobility_count(mb, us, i)
            &&& mobility_eg_at(mb, us, i) == 6 * mobility_count(mb, us, i)
            &&& board_sum(mobile_set(mb, us), |j: int| mobility_mg_at(mb, us, j)) >= mobility_count(mb, us, i)
            &&& board_sum(mobile_set(mb, us), |j: int| mobility_eg_at(mb, us, j)) >= 6 * mobility_count(
                mb,
                us,
                i,
            )
        },
{
    let set = mobile_set(mb, us);
    let fm = |j: int| mobility_mg_at(mb, us, j);
    let fe = |j: int| mobility_eg_at(mb, us, j);
    assert(MOBILITY_MG@ == seq![0i32, 4, 4, 2, 1, 0]);
    assert(MOBILITY_EG@ == seq![0i32, 4, 5, 4, 6, 0]);
    if mb[i]->0.spec_kind() == PieceType::Queen {
        assert forall|j: int| 0 <= j < 64 && set.contains(j) implies 0 <= #[trigger] fm(j) && 0 <= fe(j) by {
            let k = kind_index(mb[j]->0.spec_kind()) as int;
            assert(0 <= MOBILITY_MG@[k] && 0 <= MOBILITY_EG@[k]);
            assert(mobility_count(mb, us, j) >= 0);
            assert(0 <= MOBILITY_MG@[k] * mobility_count(mb, us, j)) by (nonlinear_arith)
                requires
                    0 <= MOBILITY_MG@[k],
                    mobility_count(mb, us, j) >= 0,
            ;
            assert(0 <= MOBILITY_EG@[k] * mobility_count(mb, us, j)) by (nonlinear_arith)
                requires
                    0 <= MOBILITY_EG@[k],
                    mobility_count(mb, us, j) >= 0,
            ;
        }
        assert forall|j: int| 0 <= j < 64 && set.contains(j) implies 0 <= #[trigger] fe(j) by {}
        lemma_sum_at_least(set, fm, 64, i);
        lemma_sum_at_least(set, fe, 64, i);
        assert(kind_index(PieceType::Queen) == 4);
        assert(mobility_mg_at(mb, us, i) == mobility_count(mb, us, i));
        assert(mobility_eg_at(mb, us, i) == 6 * mobility_count(mb, us, i));
    }
}

/// The squares attacked by the pawns of the side opposing `us`.
fn pawn_span(board: &Board, us: Color) -> (b: Bitboard)
    requires
        board.layout_ok(),
    ensures
        b@ == their_pawn_span(board.spec_mailbox(), us),
{
    let ghost mb = board.spec_mailbox();
    let them = us.flip();
    let pawns = board.pieces(PieceType::Pawn).and(board.color(them));
    let mut rest = pawns;
    let mut span = Bitboard::empty();
    loop
        invariant
            mb == board.spec_mailbox(),
            them == other(us),
            rest@.subset_of(pawns@),
            forall|p: int| #[trigger] pawns@.contains(p) == owns(mb, p, them, PieceType::Pawn),
            forall|t: int|
                #[trigger] span@.contains(t) == exists|p: int|
                    pawns@.contains(p) && !rest@.contains(p) && #[trigger] pawn_step(them, p, t),
        ensures
            forall|t: int|
                #[trigger] span@.contains(t) == exists|p: int|
                    pawns@.contains(p) && #[trigger] pawn_step(them, p, t),
        decreases rest@.len(),
    {
        proof {
            rest.lemma_view();
        }
        let ghost rest0 = rest@;
        let ghost span0 = span@;
        match rest.next() {
            None => {
                break;
            },
            Some(p) => {
                span = span.or(pawn_attacks(them, p));
                proof {
                    assert forall|t: int| #[trigger] span@.contains(t) == exists|q: int|
                        pawns@.contains(q) && !rest@.contains(q) && #[trigger] pawn_step(them, q, t) by {
                        if span@.contains(t) && !span0.contains(t) {
                            assert(pawn_step(them, p.idx(), t));
                        }
                        if exists|q: int| pawns@.contains(q) && !rest@.contains(q) && #[trigger] pawn_step(them, q, t) {
                            let q = choose|q: int| pawns@.contains(q) && !rest@.contains(q) && #[trigger] pawn_step(them, q, t);
                            if q != p.idx() {
                                assert(!rest0.contains(q));
                            }
                        }
                    }
                }
            },
        }
    }
    proof {
        assert(span@ =~= their_pawn_span(mb, us));
    }
    span
}

/// Mobility for one side, in midgame and endgame centipawns: for each of its
/// knights, bishops, rooks and queens, the weight of its kind times the
/// number of available squares it reaches.
#[verifier::rlimit(40)]
pub fn mobility(board: &Board, us: Color) -> (r: (i32, i32))
    requires
        board.layout_ok(),
    ensures
        r.0 == board_sum(mobile_set(board.spec_mailbox(), us), |i: int| mobility_mg_at(board.spec_mailbox(), us, i)),
        r.1 == board_sum(mobile_set(board.spec_mailbox(), us), |i: int| mobility_eg_at(board.spec_mailbox(), us, i)),
        0 <= r.0 <= 24576,
        0 <= r.1 <= 24576,
{
    let ghost mb = board.spec_mailbox();
    let ghost set = mobile_set(mb, us);
    let ghost fm = |i: int| mobility_mg_at(mb, us, i);
    let ghost fe = |i: int| mobility_eg_at(mb, us, i);
    let occ = board.occupied();
    let ours = board.color(us);
    let span = pawn_span(board, us);
    let avail = ours.or(span).complement();
    assert(avail@ =~= available(mb, us));
    assert(occ@ =~= occupied_set(mb));
    let mobile = board.pieces(PieceType::Knight).or(board.pieces(PieceType::Bishop)).or(
        board.pieces(PieceType::Rook),
    ).or(board.pieces(PieceType::Queen)).and(ours);
    assert(mobile@ =~= set);
    let mut rest = mobile;
    let mut mg: i32 = 0;
    let mut eg: i32 = 0;
    let ghost mut lo: int = 0;
    proof {
        lemma_summing_start(set, fm);
        lemma_summing_start(set, fe);
        assert forall|i: int| 0 <= i < 64 && set.contains(i) implies 0 <= #[trigger] fm(i) <= 384 by {
            lemma_count_bound(mb, us, i);
        }
        assert forall|i: int| 0 <= i < 64 && set.contains(i) implies 0 <= #[trigger] fe(i) <= 384 by {
            lemma_count_bound(mb, us, i);
        }
    }
    loop
        invariant
            mb == board.spec_mailbox(),
            board.layout_ok(),
            set == mobile_set(mb, us),
            fm == (|i: int| mobility_mg_at(mb, us, i)),
            fe == (|i: int| mobility_eg_at(mb, us, i)),
            avail@ == available(mb, us),
            occ@ == occupied_set(mb),
            forall|i: int| 0 <= i < 64 && set.contains(i) ==> 0 <= #[trigger] fm(i) <= 384,
            forall|i: int| 0 <= i < 64 && set.contains(i) ==> 0 <= #[trigger] fe(i) <= 384,
            summing(set, rest@, lo, mg as int, fm),
            summing(set, rest@, lo, eg as int, fe),
        ensures
            rest@ == Set::<int>::empty(),
            summing(set, rest@, lo, mg as int, fm),
            summing(set, rest@, lo, eg as int, fe),
        decreases 64 - lo,
    {
        proof {
            lemma_sum_bound(set, fm, lo, 0, 384);
            lemma_sum_bound(set, fe, lo, 0, 384);
        }
        let ghost rest0 = rest@;
        match rest.next() {
            None => {
                break;
            },
            Some(sq) => {
                proof {
                    lemma_summing_step(set, rest0, lo, mg as int, fm, sq.idx());
                    lemma_summing_step(set, rest0, lo, eg as int, fe, sq.idx());
                }
                let kind = match board.piece_on(sq) {
                    Some(p) => p.piece_type(),
                    None => PieceType::Pawn,
                };
                let reached = reach_set(kind, sq, occ);
                let hits = reached.and(avail);
                let count = hits.count();
                proof {
                    assert(hits@ =~= reach_squares(kind, sq.idx(), occupied_set(mb)).intersect(
                        available(mb, us),
                    ));
                    lemma_count_bound(mb, us, sq.idx());
                }
                let k = kind.index() as usize;
                mg = mg + MOBILITY_MG[k] * count as i32;
                eg = eg + MOBILITY_EG[k] * count as i32;
                proof {
                    lo = sq.idx() + 1;
                }
            },
        }
    }
    proof {
        lemma_summing_done(set, rest@, lo, mg as int, fm);
        lemma_summing_done(set, rest@, lo, eg as int, fe);
        lemma_sum_bound(set, fm, 64, 0, 384);
        lemma_sum_bound(set, fe, 64, 0, 384);
    }
    (mg, eg)
}

/// A mobility count is at most 64, so a mobility term is at most 384.
proof fn lemma_count_bound(mb: Seq<Option<Piece>>, us: Color, i: int)
    ensures
        0 <= mobility_count(mb, us, i) <= 64,
        0 <= mobility_mg_at(mb, us, i) <= 384,
        0 <= mobility_eg_at(mb, us, i) <= 384,
{
    let s = reach_squares(mb[i]->0.spec_kind(), i, occupied_set(mb)).intersect(available(mb, us));
    let full = Set::new(|t: int| 0 <= t < 64);
    assert(s.subset_of(full));
    vstd::set_lib::lemma_int_range(0, 64);
    assert(full =~= vstd::set_lib::set_int_range(0, 64));
    vstd::set_lib::lemma_len_subset(s, full);
    let k = kind_index(mb[i]->0.spec_kind()) as int;
    let c = mobility_count(mb, us, i);
    assert(0 <= MOBILITY_MG@[k] <= 6 && 0 <= MOBILITY_EG@[k] <= 6);
    assert(0 <= MOBILITY_MG@[k] * c <= 384) by (nonlinear_arith)
        requires
            0 <= MOBILITY_MG@[k] <= 6,
            0 <= c <= 64,
    ;
    assert(0 <= MOBILITY_EG@[k] * c <= 384) by (nonlinear_arith)
        requires
            0 <= MOBILITY_EG@[k] <= 6,
            0 <= c <= 64,
    ;
}

/// Some pawn of color `c` stands on file `f`.
pub open spec fn pawn_on_file(mb: Seq<Option<Piece>>, c: Color, f: int) -> bool {
    exists|j: int| owns(mb, j, c, PieceType::Pawn) && j % 8 == f
}

/// The squares of `c`'s pieces of kind `k`.
pub open spec fn kind_set(mb: Seq<Option<Piece>>, c: Color, k: PieceType) -> Set<int> {
    Set::new(|i: int| owns(mb, i, c, k))
}

/// The file bonus of a rook of `us` on square `i`: none on a file holding a
/// pawn of its own, the half-open bonus where only enemy pawns stand on it,
/// the open bonus where no pawn does.
pub open spec fn rook_mg_at(mb: Seq<Option<Piece>>, us: Color, i: int) -> int {
    if pawn_on_file(mb, us, i % 8) {
        0
    } else if pawn_on_file(mb, other(us), i % 8) {
        ROOK_SEMI_MG as int
    } else {
        ROOK_OPEN_MG as int
    }
}

/// The endgame counterpart of [`rook_mg_at`].
pub open spec fn rook_eg_at(mb: Seq<Option<Piece>>, us: Color, i: int) -> int {
    if pawn_on_file(mb, us, i % 8) {
        0
    } else if pawn_on_file(mb, other(us), i % 8) {
        ROOK_SEMI_EG as int
    } else {
        ROOK_OPEN_EG as int
    }
}

/// Rook file bonuses for one side, in midgame and endgame centipawns.
#[verifier::rlimit(40)]
pub fn rook_files(board: &Board, us: Color) -> (r: (i32, i32))
    requires
        board.layout_ok(),
    ensures
        r.0 == board_sum(kind_set(board.spec_mailbox(), us, PieceType::Rook), |i: int| rook_mg_at(board.spec_mailbox(), us, i)),
        r.1 == board_sum(kind_set(board.spec_mailbox(), us, PieceType::Rook), |i: int| rook_eg_at(board.spec_mailbox(), us, i)),
        0 <= r.0 <= 1664,
        0 <= r.1 <= 1664,
{
    let ghost mb = board.spec_mailbox();
    let ghost set = kind_set(mb, us, PieceType::Rook);
    let ghost fm = |i: int| rook_mg_at(mb, us, i);
    let ghost fe = |i: int| rook_eg_at(mb, us, i);
    let ours = board.pieces(PieceType::Pawn).and(board.color(us));
    let theirs = board.pieces(PieceType::Pawn).and(board.color(us.flip()));
    let rooks = board.pieces(PieceType::Rook).and(board.color(us));
    assert(rooks@ =~= set);
    let mut rest = rooks;
    let mut mg: i32 = 0;
    let mut eg: i32 = 0;
    let ghost mut lo: int = 0;
    proof {
        lemma_summing_start(set, fm);
        lemma_summing_start(set, fe);
    }
    loop
        invariant
            mb == board.spec_mailbox(),
            set == kind_set(mb, us, PieceType::Rook),
            fm == (|i: int| rook_mg_at(mb, us, i)),
            fe == (|i: int| rook_eg_at(mb, us, i)),
            forall|j: int| #[trigger] ours@.contains(j) == owns(mb, j, us, PieceType::Pawn),
            forall|j: int| #[trigger] theirs@.contains(j) == owns(mb, j, other(us), PieceType::Pawn),
            summing(set, rest@, lo, mg as int, fm),
            summing(set, rest@, lo, eg as int, fe),
        ensures
            rest@ == Set::<int>::empty(),
            summing(set, rest@, lo, mg as int, fm),
            summing(set, rest@, lo, eg as int, fe),
        decreases 64 - lo,
    {
        proof {
            lemma_sum_bound(set, fm, lo, 0, 26);
            lemma_sum_bound(set, fe, lo, 0, 26);
        }
        let ghost rest0 = rest@;
        match rest.next() {
            None => {
                break;
            },
            Some(sq) => {
                proof {
                    lemma_summing_step(set, rest0, lo, mg as int, fm, sq.idx());
                    lemma_summing_step(set, rest0, lo, eg as int, fe, sq.idx());
                }
                let file = file_bb(sq.file());
                let own = ours.and(file);
                let other_side = theirs.and(file);
                proof {
                    let f = sq.idx() % 8;
                    if pawn_on_file(mb, us, f) {
                        let j = choose|j: int| owns(mb, j, us, PieceType::Pawn) && j % 8 == f;
                        assert(own@.contains(j));
                    }
                    if pawn_on_file(mb, other(us), f) {
                        let j = choose|j: int| owns(mb, j, other(us), PieceType::Pawn) && j % 8 == f;
                        assert(other_side@.contains(j));
                    }
                    if own@ != Set::<int>::empty() {
                        crate::movegen::attacks::lemma_witness(own@);
                    }
                    if other_side@ != Set::<int>::empty() {
                        crate::movegen::attacks::lemma_witness(other_side@);
                    }
                }
                if own.is_empty() {
                    if other_side.is_empty() {
                        mg = mg + ROOK_OPEN_MG;
                        eg = eg + ROOK_OPEN_EG;
                    } else {
                        mg = mg + ROOK_SEMI_MG;
                        eg = eg + ROOK_SEMI_EG;
                    }
                }
                proof {
                    lo = sq.idx() + 1;
                }
            },
        }
    }
    proof {
        lemma_summing_done(set, rest@, lo, mg as int, fm);
        lemma_summing_done(set, rest@, lo, eg as int, fe);
        lemma_sum_bound(set, fm, 64, 0, 26);
        lemma_sum_bound(set, fe, 64, 0, 26);
    }
    (mg, eg)
}

/// Ranks a pawn of `c` on `i` has advanced from its side's home rank.
pub open spec fn advanced(c: Color, i: int) -> int {
    if c == Color::White {
        i / 8
    } else {
        7 - i / 8
    }
}

/// A pawn of `us` stands ahead of `us`'s pawn on `i`, on the same file.
pub open spec fn blocked(mb: Seq<Option<Piece>>, us: Color, i: int) -> bool {
    exists|j: int|
        owns(mb, j, us, PieceType::Pawn) && ahead_set(us, i / 8).contains(j) && j % 8 == i % 8
}

/// `us`'s pawn on `i` is passed: nothing of its own blocks it, and no enemy
/// pawn stands ahead of it on its file or a file beside it.
pub open spec fn passed(mb: Seq<Option<Piece>>, us: Color, i: int) -> bool {
    &&& !blocked(mb, us, i)
    &&& !exists|j: int|
        owns(mb, j, other(us), PieceType::Pawn) && ahead_set(us, i / 8).contains(j) && (j % 8 == i
            % 8 || dist(j % 8, i % 8) == 1)
}

/// `us`'s pawn on `i` has no pawn of its own on a file beside it.
pub open spec fn isolated(mb: Seq<Option<Piece>>, us: Color, i: int) -> bool {
    !exists|j: int| owns(mb, j, us, PieceType::Pawn) && dist(j % 8, i % 8) == 1
}

/// The midgame pawn-structure term of `us`'s pawn on `i`.
pub open spec fn pawn_mg_at(mb: Seq<Option<Piece>>, us: Color, i: int) -> int {
    (if passed(mb, us, i) {
        PASSED_MG@[advanced(us, i)] as int
    } else {
        0
    }) + (if isolated(mb, us, i) {
        ISOLATED_MG as int
    } else {
        0
    }) + (if blocked(mb, us, i) {
        DOUBLED_MG as int
    } else {
        0
    })
}

/// The endgame pawn-structure term of `us`'s pawn on `i`.
pub open spec fn pawn_eg_at(mb: Seq<Option<Piece>>, us: Color, i: int) -> int {
    (if passed(mb, us, i) {
        PASSED_EG@[advanced(us, i)] as int
    } else {
        0
    }) + (if isolated(mb, us, i) {
        ISOLATED_EG as int
    } else {
        0
    }) + (if blocked(mb, us, i) {
        DOUBLED_EG as int
    } else {
        0
    })
}

/// No pawn stands on the rank its side promotes on.
pub open spec fn pawns_placed(mb: Seq<Option<Piece>>) -> bool {
    &&& forall|i: int| owns(mb, i, Color::White, PieceType::Pawn) ==> i / 8 < 7
    &&& forall|i: int| owns(mb, i, Color::Black, PieceType::Pawn) ==> i / 8 > 0
}

/// Pawn structure for one side, in midgame and endgame centipawns: passed
/// pawns by how far they have advanced, isolated and doubled pawns.
#[verifier::rlimit(60)]
pub fn pawn_structure(board: &Board, us: Color) -> (r: (i32, i32))
    requires
        board.layout_ok(),
        pawns_placed(board.spec_mailbox()),
    ensures
        r.0 == board_sum(kind_set(board.spec_mailbox(), us, PieceType::Pawn), |i: int| pawn_mg_at(board.spec_mailbox(), us, i)),
        r.1 == board_sum(kind_set(board.spec_mailbox(), us, PieceType::Pawn), |i: int| pawn_eg_at(board.spec_mailbox(), us, i)),
        -2304 <= r.0 <= 9280,
        -2304 <= r.1 <= 9280,
{
    let ghost mb = board.spec_mailbox();
    let ghost set = kind_set(mb, us, PieceType::Pawn);
    let ghost fm = |i: int| pawn_mg_at(mb, us, i);
    let ghost fe = |i: int| pawn_eg_at(mb, us, i);
    let ours = board.pieces(PieceType::Pawn).and(board.color(us));
    let theirs = board.pieces(PieceType::Pawn).and(board.color(us.flip()));
    assert(ours@ =~= set);
    let mut rest = ours;
    let mut mg: i32 = 0;
    let mut eg: i32 = 0;
    let ghost mut lo: int = 0;
    proof {
        lemma_summing_start(set, fm);
        lemma_summing_start(set, fe);
        assert forall|i: int| 0 <= i < 64 && set.contains(i) implies -36 <= #[trigger] fm(i) <= 145 by {
            assert(0 <= advanced(us, i) <= 6);
        }
        assert forall|i: int| 0 <= i < 64 && set.contains(i) implies -36 <= #[trigger] fe(i) <= 145 by {
            assert(0 <= advanced(us, i) <= 6);
        }
    }
    loop
        invariant
            mb == board.spec_mailbox(),
            pawns_placed(mb),
            set == kind_set(mb, us, PieceType::Pawn),
            fm == (|i: int| pawn_mg_at(mb, us, i)),
            fe == (|i: int| pawn_eg_at(mb, us, i)),
            forall|j: int| #[trigger] ours@.contains(j) == owns(mb, j, us, PieceType::Pawn),
            forall|j: int| #[trigger] theirs@.contains(j) == owns(mb, j, other(us), PieceType::Pawn),
            forall|i: int| 0 <= i < 64 && set.contains(i) ==> -36 <= #[trigger] fm(i) <= 145,
            forall|i: int| 0 <= i < 64 && set.contains(i) ==> -36 <= #[trigger] fe(i) <= 145,
            summing(set, rest@, lo, mg as int, fm),
            summing(set, rest@, lo, eg as int, fe),
        ensures
            rest@ == Set::<int>::empty(),
            summing(set, rest@, lo, mg as int, fm),
            summing(set, rest@, lo, eg as int, fe),
        decreases 64 - lo,
    {
        proof {
            lemma_sum_bound(set, fm, lo, -36, 145);
            lemma_sum_bound(set, fe, lo, -36, 145);
        }
        let ghost rest0 = rest@;
        match rest.next() {
            None => {
                break;
            },
            Some(sq) => {
                proof {
                    lemma_summing_step(set, rest0, lo, mg as int, fm, sq.idx());
                    lemma_summing_step(set, rest0, lo, eg as int, fe, sq.idx());
                }
                let file = sq.file();
                let rank = sq.rank();
                let adv = match us {
                    Color::White => rank,
                    Color::Black => 7 - rank,
                } as usize;
                let own_file = file_bb(file);
                let neighbours = beside_bb(file);
                let ahead = ahead_bb(sq, us);
                let stoppers = ours.and(ahead).and(own_file);
                let is_blocked = !stoppers.is_empty();
                let enemies = theirs.and(ahead).and(own_file.or(neighbours));
                let friends = ours.and(neighbours);
                let ghost i = sq.idx();
                proof {
                    assert(is_blocked == blocked(mb, us, i)) by {
                        if blocked(mb, us, i) {
                            let j = choose|j: int|
                                owns(mb, j, us, PieceType::Pawn) && ahead_set(us, i / 8).contains(j)
                                    && j % 8 == i % 8;
                            assert(stoppers@.contains(j));
                        }
                        if stoppers@ != Set::<int>::empty() {
                            crate::movegen::attacks::lemma_witness(stoppers@);
                        }
                    }
                    if exists|j: int|
                        owns(mb, j, other(us), PieceType::Pawn) && ahead_set(us, i / 8).contains(j)
                            && (j % 8 == i % 8 || dist(j % 8, i % 8) == 1) {
                        let j = choose|j: int|
                            owns(mb, j, other(us), PieceType::Pawn) && ahead_set(us, i / 8).contains(
                                j,
                            ) && (j % 8 == i % 8 || dist(j % 8, i % 8) == 1);
                        assert(enemies@.contains(j));
                    }
                    if enemies@ != Set::<int>::empty() {
                        crate::movegen::attacks::lemma_witness(enemies@);
                    }
                    if !isolated(mb, us, i) {
                        let j = choose|j: int| owns(mb, j, us, PieceType::Pawn) && dist(j % 8, i % 8) == 1;
                        assert(friends@.contains(j));
                    }
                    if friends@ != Set::<int>::empty() {
                        crate::movegen::attacks::lemma_witness(friends@);
                    }
                    assert(0 <= advanced(us, i) <= 6);
                }
                let mut dm: i32 = 0;
                let mut de: i32 = 0;
                if !is_blocked && enemies.is_empty() {
                    dm = dm + PASSED_MG[adv];
                    de = de + PASSED_EG[adv];
                }
                if friends.is_empty() {
                    dm = dm + ISOLATED_MG;
                    de = de + ISOLATED_EG;
                }
                if is_blocked {
                    dm = dm + DOUBLED_MG;
                    de = de + DOUBLED_EG;
                }
                mg = mg + dm;
                eg = eg + de;
                proof {
                    lo = sq.idx() + 1;
                }
            },
        }
    }
    proof {
        lemma_summing_done(set, rest@, lo, mg as int, fm);
        lemma_summing_done(set, rest@, lo, eg as int, fe);
        lemma_sum_bound(set, fm, 64, -36, 145);
        lemma_sum_bound(set, fe, 64, -36, 145);
    }
    (mg, eg)
}

/// Everything scored for `us` beyond the piece-square tables, in midgame
/// centipawns: mobility, rook files and pawn structure.
pub open spec fn side_mg(mb: Seq<Option<Piece>>, us: Color) -> int {
    board_sum(mobile_set(mb, us), |i: int| mobility_mg_at(mb, us, i)) + board_sum(
        kind_set(mb, us, PieceType::Rook),
        |i: int| rook_mg_at(mb, us, i),
    ) + board_sum(kind_set(mb, us, PieceType::Pawn), |i: int| pawn_mg_at(mb, us, i))
}

/// The endgame counterpart of [`side_mg`].
pub open spec fn side_eg(mb: Seq<Option<Piece>>, us: Color) -> int {
    board_sum(mobile_set(mb, us), |i: int| mobility_eg_at(mb, us, i)) + board_sum(
        kind_set(mb, us, PieceType::Rook),
        |i: int| rook_eg_at(mb, us, i),
    ) + board_sum(kind_set(mb, us, PieceType::Pawn), |i: int| pawn_eg_at(mb, us, i))
}

/// The static evaluation of `mb` with `side` to move, in centipawns from the
/// side to move's point of view: the midgame and endgame scores (piece-square
/// tables with material, then White's other terms less Black's) blended by
/// the game phase, negated for Black, plus the tempo bonus.
pub open spec fn evaluation(mb: Seq<Option<Piece>>, side: Color) -> int {
    let occ = occupied_set(mb);
    let mg = board_sum(occ, |i: int| psq_mg_at(mb, i)) + side_mg(mb, Color::White) - side_mg(
        mb,
        Color::Black,
    );
    let eg = board_sum(occ, |i: int| psq_eg_at(mb, i)) + side_eg(mb, Color::White) - side_eg(
        mb,
        Color::Black,
    );
    let phase = board_sum(occ, |i: int| phase_at(mb, i));
    let score = blended(mg, eg, phase);
    (if side == Color::White {
        score
    } else {
        -score
    }) + TEMPO
}

/// Every scored term other than the piece-square tables, for one side.
fn term_sum(board: &Board, us: Color) -> (r: (i32, i32))
    requires
        board.layout_ok(),
        pawns_placed(board.spec_mailbox()),
    ensures
        r.0 == side_mg(board.spec_mailbox(), us),
        r.1 == side_eg(board.spec_mailbox(), us),
        -2304 <= r.0 <= 35520,
        -2304 <= r.1 <= 35520,
{
    let (mobility_mg, mobility_eg) = mobility(board, us);
    let (rook_mg, rook_eg) = rook_files(board, us);
    let (pawn_mg, pawn_eg) = pawn_structure(board, us);
    (mobility_mg + rook_mg + pawn_mg, mobility_eg + rook_eg + pawn_eg)
}

/// Returns the static evaluation in centipawns, relative to the side to
/// move (see [`evaluation`]).
pub fn evaluate(board: &Board) -> (score: i32)
    requires
        board.layout_ok(),
        pawns_placed(board.spec_mailbox()),
    ensures
        score == evaluation(board.spec_mailbox(), board.spec_state().spec_side()),
        -1_000_017 <= score <= 1_000_017,
{
    let acc = scan(board);
    let (white_mg, white_eg) = term_sum(board, Color::White);
    let (black_mg, black_eg) = term_sum(board, Color::Black);
    let score = blend(acc.mg + white_mg - black_mg, acc.eg + white_eg - black_eg, acc.phase);
    proof {
        let s = blended(
            (acc.mg + white_mg - black_mg) as int,
            (acc.eg + white_eg - black_eg) as int,
            acc.phase as int,
        );
        assert(-1_000_000 <= s <= 1_000_000) by {
            crate::eval::lemma_blended_bound(
                (acc.mg + white_mg - black_mg) as int,
                (acc.eg + white_eg - black_eg) as int,
                acc.phase as int,
            );
        }
    }
    let score = match board.state().side_to_move() {
        Color::White => score,
        Color::Black => -score,
    };
    score + TEMPO
}

} // verus!
