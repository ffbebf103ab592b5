//! Legal move generation: the pseudo-legal moves that do not leave the
//! mover's own king attacked.
use vstd::prelude::*;
use crate::board::{Board, Color, Move, MoveType, Piece, PieceType, Square, State};
use crate::board::board::{
    can_make, captured_by, capture_square, ep_victim, is_castle_type, lemma_make_unmake, make_mailbox,
    placed_by, reversible, rook_squares,
};
use crate::board::moves::{type_is_capture, type_is_promotion, type_promoted_piece};
use crate::board::piece::other;
use crate::movegen::attacks::{attacked, is_attacked, pawn_attacks, pawn_step};
use crate::movegen::gen::{
    GenMode, castle_move, empty_on, enemy_on, ep_set, generate_pseudo, generated, owns,
    pawn_capture_kind, pawn_kind, pawn_move, piece_move, pseudo_move,
};
use crate::movegen::list::{
    MoveList, extends_with, holds_move, lemma_holds_extend, lemma_no_repeats_push, no_repeats, same_move,
};

verus! {

/// Some square of `mb` holds `c`'s king.
pub open spec fn has_king(mb: Seq<Option<Piece>>, c: Color) -> bool {
    exists|i: int| 0 <= i < 64 && mb[i] == Some(Piece::of(c, PieceType::King))
}

/// `k` is the lowest square of `mb` holding `c`'s king.
pub open spec fn lowest_king(mb: Seq<Option<Piece>>, c: Color, k: int) -> bool {
    &&& 0 <= k < 64
    &&& mb[k] == Some(Piece::of(c, PieceType::King))
    &&& forall|j: int| 0 <= j < k ==> mb[j] != Some(Piece::of(c, PieceType::King))
}

/// After `m` is made on `mb`, the king of `us` (its lowest square, should
/// there be several) is not attacked.
pub open spec fn king_safe_after(mb: Seq<Option<Piece>>, us: Color, m: Move) -> bool {
    let after = make_mailbox(mb, m);
    forall|k: int| #[trigger] lowest_king(after, us, k) ==> !attacked(after, k, other(us))
}

/// `(f, t, ty)` is a legal move on `mb` with state `st`: pseudo-legal, and
/// it leaves the mover's king unattacked.
pub open spec fn legal_move(mb: Seq<Option<Piece>>, st: State, f: int, t: int, ty: MoveType) -> bool {
    &&& pseudo_move(mb, st, true, true, f, t, ty)
    &&& forall|m: Move|
        m.from_idx() == f && m.to_idx() == t && m.spec_type() == ty ==> #[trigger] king_safe_after(
            mb,
            st.spec_side(),
            m,
        )
}

/// Some pawn of `us` on `mb` attacks the square `e`.
pub open spec fn ep_reachable(mb: Seq<Option<Piece>>, us: Color, e: int) -> bool {
    exists|f: int| #[trigger] owns(mb, f, us, PieceType::Pawn) && pawn_step(us, f, e)
}

/// A position the generators can play moves on: consistent, with the side
/// to move's king on the board, each castling right backed by its king and
/// rook on their home squares, and an en passant square that a pawn of the
/// side to move can capture onto lying behind a pawn of the side that just
/// moved, on an empty square. (An en passant square no pawn can reach is
/// never played on, so nothing is asked of it.)
pub open spec fn playable(b: Board) -> bool {
    b.wf() && playable_at(b.spec_mailbox(), b.spec_state())
}

/// [`playable`] apart from the board's own consistency: what the pieces
/// and the state must satisfy.
pub open spec fn playable_at(mb: Seq<Option<Piece>>, st: State) -> bool {
    let us = st.spec_side();
    let bits = st.spec_castling().bits();
    let wk = Some(Piece::of(Color::White, PieceType::King));
    let wr = Some(Piece::of(Color::White, PieceType::Rook));
    let bk = Some(Piece::of(Color::Black, PieceType::King));
    let br = Some(Piece::of(Color::Black, PieceType::Rook));
    &&& has_king(mb, us)
    &&& bits & 1 == 1 ==> mb[4] == wk && mb[7] == wr
    &&& bits & 2 == 2 ==> mb[4] == wk && mb[0] == wr
    &&& bits & 4 == 4 ==> mb[60] == bk && mb[63] == br
    &&& bits & 8 == 8 ==> mb[60] == bk && mb[56] == br
    &&& st.spec_ep() matches Some(e) ==> ep_reachable(mb, us, e.idx()) ==> {
        &&& e.idx() / 8 == (if us == Color::White {
            5int
        } else {
            2int
        })
        &&& mb[e.idx()] is None
        &&& mb[ep_victim(us, e.idx())] == Some(Piece::of(other(us), PieceType::Pawn))
    }
}

/// A pseudo-legal move on a playable board can be made and taken back, and
/// leaves the mover's king on the board.
pub proof fn lemma_pseudo_playable(b: Board, mv: Move)
    requires
        playable(b),
        pseudo_move(
            b.spec_mailbox(),
            b.spec_state(),
            true,
            true,
            mv.from_idx(),
            mv.to_idx(),
            mv.spec_type(),
        ),
    ensures
        can_make(b.spec_mailbox(), mv),
        reversible(b.spec_mailbox(), b.spec_state().spec_side(), mv),
        has_king(make_mailbox(b.spec_mailbox(), mv), b.spec_state().spec_side()),
{
    let mb = b.spec_mailbox();
    let st = b.spec_state();
    let us = st.spec_side();
    let f = mv.from_idx();
    let t = mv.to_idx();
    let ty = mv.spec_type();
    b.lemma_mailbox_len();
    b.lemma_wf_layout();
    b.lemma_valid_pieces();
    let king = Piece::of(us, PieceType::King);
    let moving = mb[f]->0;
    moving.lemma_of(king, us, PieceType::King);
    moving.lemma_of(moving, us, PieceType::Pawn);
    king.lemma_of(king, us, PieceType::King);
    let i = choose|i: int| 0 <= i < 64 && mb[i] == Some(king);
    let after = make_mailbox(mb, mv);
    if f == i {
        assert(type_promoted_piece(ty) is None);
        assert(placed_by(mb, mv) == king);
        if is_castle_type(ty) {
            let (rf, rt) = rook_squares(t);
            assert(rf != t && rt != t);
        }
        assert(after[t] == Some(king));
    } else {
        assert(mb[t] != Some(king));
        if captured_by(mb, mv) is Some {
            let cap = capture_square(mb, mv);
            if ty == MoveType::EnPassant {
                assert(cap == ep_victim(us, t));
                let e = st.spec_ep()->0;
                assert(ep_set(st.spec_ep()).contains(t));
                assert(e.idx() == t);
                assert(owns(mb, f, us, PieceType::Pawn) && pawn_step(us, f, t));
                assert(ep_reachable(mb, us, e.idx()));
                let pawn = Piece::of(other(us), PieceType::Pawn);
                pawn.lemma_of(king, other(us), PieceType::Pawn);
                assert(mb[cap] == Some(pawn));
                assert(pawn.byte() != king.byte());
            }
            assert(cap != i);
        }
        if is_castle_type(ty) {
            let (rf, rt) = rook_squares(t);
            let rook = Piece::of(us, PieceType::Rook);
            rook.lemma_of(king, us, PieceType::Rook);
            assert(rook.byte() != king.byte());
            assert(castle_move(mb, us, st.spec_castling().bits(), f, t, ty));
            assert(mb[rf] == Some(rook));
            assert(mb[rt] is None);
            assert(rf != i && rt != i);
        }
        assert(after[i] == Some(king));
    }
}

/// `new` is `old` followed by exactly the legal moves of `b`.
pub open spec fn legal_generated(b: Board, old: Seq<Move>, new: Seq<Move>) -> bool {
    extends_with(
        old,
        new,
        |f: int, t: int, ty: MoveType| legal_move(b.spec_mailbox(), b.spec_state(), f, t, ty),
    )
}

/// The moves of `pseudo` that leave the mover's king on `b` unattacked, in
/// their order in `pseudo`.
pub open spec fn legal_subsequence(b: Board, pseudo: Seq<Move>) -> Seq<Move> {
    pseudo.filter(|m: Move| king_safe_after(b.spec_mailbox(), b.spec_state().spec_side(), m))
}

/// Every move kept by a filter comes from the filtered sequence.
proof fn lemma_filter_within(s: Seq<Move>, pred: spec_fn(Move) -> bool, i: int)
    requires
        0 <= i < s.filter(pred).len(),
    ensures
        exists|k: int| 0 <= k < s.len() && s[k] == s.filter(pred)[i],
    decreases s.len(),
{
    reveal_with_fuel(Seq::filter, 1);
    let rest = s.drop_last().filter(pred);
    if pred(s.last()) && i == rest.len() {
        assert(s[s.len() - 1] == s.filter(pred)[i]);
    } else {
        assert(s.filter(pred)[i] == rest[i]);
        lemma_filter_within(s.drop_last(), pred, i);
        let k = choose|k: int| 0 <= k < s.drop_last().len() && s.drop_last()[k] == rest[i];
        assert(s[k] == s.drop_last()[k]);
    }
}

/// Moves with the same squares and type change a mailbox the same way.
proof fn lemma_same_fields(mb: Seq<Option<Piece>>, us: Color, m: Move, mv: Move)
    requires
        m.from_idx() == mv.from_idx(),
        m.to_idx() == mv.to_idx(),
        m.spec_type() == mv.spec_type(),
    ensures
        make_mailbox(mb, m) == make_mailbox(mb, mv),
        king_safe_after(mb, us, m) == king_safe_after(mb, us, mv),
{
    assert(make_mailbox(mb, m) =~= make_mailbox(mb, mv));
}

/// Appends the moves of `pseudo`, the pseudo-legal moves of `board`, that
/// leave the mover's king unattacked, each checked by playing it.
#[verifier::rlimit(40)]
fn filter_legal(board: &mut Board, pseudo: &MoveList, list: &mut MoveList)
    requires
        playable(*old(board)),
        generated(*old(board), GenMode::All, Seq::empty(), pseudo@),
    ensures
        Board::same_position(*final(board), *old(board)),
        final(board).wf(),
        legal_generated(*old(board), old(list)@, final(list)@),
        final(list)@ == old(list)@ + legal_subsequence(*old(board), pseudo@),
{
    let ghost b0 = *board;
    let ghost mb0 = b0.spec_mailbox();
    let ghost st0 = b0.spec_state();
    let ghost l0 = list@;
    let ghost n0 = list@.len();
    let us = board.state().side_to_move();
    let them = us.flip();
    let n = pseudo.len();
    let mut i: usize = 0;
    proof {
        assert(list@.subrange(0, n0 as int) =~= l0);
        assert(pseudo@.take(0) =~= Seq::<Move>::empty());
        reveal_with_fuel(Seq::filter, 1);
        assert(list@ =~= l0 + legal_subsequence(b0, pseudo@.take(0)));
    }
    while i < n
        invariant
            i <= n,
            n == pseudo@.len(),
            playable(b0),
            mb0 == b0.spec_mailbox(),
            st0 == b0.spec_state(),
            us == st0.spec_side(),
            them == other(us),
            generated(b0, GenMode::All, Seq::empty(), pseudo@),
            Board::same_position(*board, b0),
            board.wf(),
            n0 == l0.len(),
            n0 <= list@.len(),
            list@.subrange(0, n0 as int) == l0,
            forall|j: int|
                #![trigger list@[j]]
                n0 <= j < list@.len() ==> legal_move(
                    mb0,
                    st0,
                    list@[j].from_idx(),
                    list@[j].to_idx(),
                    list@[j].spec_type(),
                ),
            forall|f: int, t: int, ty: MoveType|
                legal_move(mb0, st0, f, t, ty) && holds_move(pseudo@, 0, i as int, f, t, ty)
                    ==> #[trigger] holds_move(list@, n0 as int, list@.len() as int, f, t, ty),
            list@ == l0 + legal_subsequence(b0, pseudo@.take(i as int)),
            no_repeats(list@, n0 as int),
            no_repeats(pseudo@, 0),
        ensures
            no_repeats(list@, n0 as int),
            list@ == l0 + legal_subsequence(b0, pseudo@.take(n as int)),
            Board::same_position(*board, b0),
            board.wf(),
            n0 <= list@.len(),
            list@.subrange(0, n0 as int) == l0,
            forall|j: int|
                #![trigger list@[j]]
                n0 <= j < list@.len() ==> legal_move(
                    mb0,
                    st0,
                    list@[j].from_idx(),
                    list@[j].to_idx(),
                    list@[j].spec_type(),
                ),
            forall|f: int, t: int, ty: MoveType|
                legal_move(mb0, st0, f, t, ty) && holds_move(pseudo@, 0, n as int, f, t, ty)
                    ==> #[trigger] holds_move(list@, n0 as int, list@.len() as int, f, t, ty),
        decreases n - i,
    {
        let mv = pseudo.get(i);
        let ghost before = *board;
        let ghost lb = list@;
        proof {
            assert(pseudo_move(mb0, st0, true, true, mv.from_idx(), mv.to_idx(), mv.spec_type()));
            lemma_pseudo_playable(b0, mv);
            before.lemma_wf_layout();
        }
        board.make(mv);
        let ghost mid = *board;
        proof {
            mid.lemma_wf_layout();
        }
        let k = board.king_square(us);
        let safe = !is_attacked(board, k, them);
        proof {
            lemma_make_unmake(before, mv, mid, mid);
        }
        board.unmake(mv);
        proof {
            lemma_make_unmake(before, mv, mid, *board);
            let after_mb = make_mailbox(mb0, mv);
            assert(lowest_king(after_mb, us, k.idx()));
            assert(safe == king_safe_after(mb0, us, mv)) by {
                assert forall|k2: int| #[trigger] lowest_king(after_mb, us, k2) implies k2 == k.idx() by {
                    if k2 < k.idx() {
                        assert(after_mb[k2] != Some(Piece::of(us, PieceType::King)));
                    } else if k2 > k.idx() {
                        assert(after_mb[k.idx()] != Some(Piece::of(us, PieceType::King)));
                    }
                }
            }
        }
        proof {
            if safe {
                let pred = |m: Move| king_safe_after(mb0, us, m);
                assert forall|a: int| n0 <= a < lb.len() implies !same_move(#[trigger] lb[a], mv) by {
                    let sub = legal_subsequence(b0, pseudo@.take(i as int));
                    assert(lb[a] == sub[a - n0]);
                    lemma_filter_within(pseudo@.take(i as int), pred, a - n0);
                    let k = choose|k: int| 0 <= k < i && pseudo@.take(i as int)[k] == sub[a - n0];
                    assert(pseudo@[k] == lb[a]);
                    assert(!same_move(pseudo@[k], pseudo@[i as int]));
                }
                lemma_no_repeats_push(lb, mv, n0 as int);
            }
        }
        if safe {
            list.push(mv);
        }
        proof {
            let pred = |m: Move| king_safe_after(mb0, us, m);
            let taken = pseudo@.take(i + 1);
            assert(taken.drop_last() =~= pseudo@.take(i as int));
            assert(taken.last() == mv);
            reveal_with_fuel(Seq::filter, 1);
            assert(legal_subsequence(b0, taken) == (if pred(mv) {
                legal_subsequence(b0, pseudo@.take(i as int)).push(mv)
            } else {
                legal_subsequence(b0, pseudo@.take(i as int))
            }));
            if safe {
                assert(list@ =~= l0 + legal_subsequence(b0, taken));
            } else {
                assert(list@ =~= l0 + legal_subsequence(b0, taken));
            }
        }
        proof {
            let nb = lb.len() as int;
            assert(list@.subrange(0, nb) =~= lb);
            assert(list@.subrange(0, n0 as int) =~= l0) by {
                assert(list@.subrange(0, n0 as int) =~= list@.subrange(0, nb).subrange(0, n0 as int));
            }
            if safe {
                assert forall|m: Move|
                    m.from_idx() == mv.from_idx() && m.to_idx() == mv.to_idx() && m.spec_type()
                        == mv.spec_type() implies #[trigger] king_safe_after(mb0, us, m) by {
                    lemma_same_fields(mb0, us, m, mv);
                }
                assert(legal_move(mb0, st0, mv.from_idx(), mv.to_idx(), mv.spec_type()));
            }
            assert forall|j: int| #![trigger list@[j]] n0 <= j < list@.len() implies legal_move(
                mb0,
                st0,
                list@[j].from_idx(),
                list@[j].to_idx(),
                list@[j].spec_type(),
            ) by {
                if j < nb {
                    assert(list@[j] == list@.subrange(0, nb)[j]);
                }
            }
            assert forall|f: int, t: int, ty: MoveType|
                legal_move(mb0, st0, f, t, ty) && holds_move(pseudo@, 0, i + 1, f, t, ty)
                    implies #[trigger] holds_move(list@, n0 as int, list@.len() as int, f, t, ty) by {
                let j = choose|j: int|
                    0 <= j < i + 1 && #[trigger] pseudo@[j].from_idx() == f && pseudo@[j].to_idx() == t
                        && pseudo@[j].spec_type() == ty;
                if j < i {
                    assert(holds_move(pseudo@, 0, i as int, f, t, ty));
                    lemma_holds_extend(lb, list@, n0 as int, f, t, ty);
                } else {
                    assert(pseudo@[j] == mv);
                    let m = mv;
                    assert(king_safe_after(mb0, us, m));
                    assert(safe);
                    assert(list@[nb] == mv);
                }
            }
        }
        i = i + 1;
    }
    proof {
        assert(pseudo@.take(n as int) =~= pseudo@);
    }
}

/// Generates the legal moves of the side to move: the pseudo-legal moves
/// that do not leave its king attacked, appended in the order the
/// pseudo-legal generator produced them, each as often as it did. The board
/// is unchanged.
pub fn generate_legal(board: &mut Board, list: &mut MoveList)
    requires
        playable(*old(board)),
    ensures
        Board::same_position(*final(board), *old(board)),
        final(board).wf(),
        legal_generated(*old(board), old(list)@, final(list)@),
        exists|pseudo: Seq<Move>|
            generated(*old(board), GenMode::All, Seq::empty(), pseudo) && final(list)@ == old(list)@
                + legal_subsequence(*old(board), pseudo),
{
    let ghost b0 = *board;
    let ghost l0 = list@;
    let mut pseudo = MoveList::new();
    proof {
        board.lemma_wf_layout();
    }
    generate_pseudo(board, &mut pseudo);
    filter_legal(board, &pseudo, list);
    proof {
        assert(generated(b0, GenMode::All, Seq::empty(), pseudo@) && list@ == l0 + legal_subsequence(b0, pseudo@));
    }
}

/// [`generate_legal`] for a caller that already knows whether the side to
/// move is in check; `in_check` must describe `board`. Every move is checked
/// by playing it, so the answer is the same either way.
pub fn generate_legal_in_check(board: &mut Board, list: &mut MoveList, in_check: bool)
    requires
        playable(*old(board)),
        in_check == (forall|k: int|
            #[trigger] lowest_king(old(board).spec_mailbox(), old(board).spec_state().spec_side(), k)
                ==> attacked(
                old(board).spec_mailbox(),
                k,
                other(old(board).spec_state().spec_side()),
            )),
    ensures
        Board::same_position(*final(board), *old(board)),
        final(board).wf(),
        legal_generated(*old(board), old(list)@, final(list)@),
{
    generate_legal(board, list);
}

/// Whether the generators can play on `board` (see [`playable`]).
pub fn is_playable(board: &Board) -> (b: bool)
    requires
        board.wf(),
    ensures
        b == playable(*board),
{
    proof {
        board.lemma_wf_layout();
        board.lemma_mailbox_len();
    }
    let st = board.state();
    let us = st.side_to_move();
    let kings = board.pieces(PieceType::King).and(board.color(us));
    let ghost king = Piece::of(us, PieceType::King);
    proof {
        board.lemma_valid_pieces();
        assert forall|i: int| #[trigger] kings@.contains(i) == (0 <= i < 64 && board.spec_mailbox()[i]
            == Some(king)) by {
            if 0 <= i < 64 && board.spec_mailbox()[i] is Some {
                let p = board.spec_mailbox()[i]->0;
                p.lemma_of(king, us, PieceType::King);
                king.lemma_of(p, us, PieceType::King);
            }
        }
    }
    if kings.is_empty() {
        proof {
            if has_king(board.spec_mailbox(), us) {
                let i = choose|i: int| 0 <= i < 64 && board.spec_mailbox()[i] == Some(king);
                assert(kings@.contains(i));
            }
        }
        return false;
    }
    proof {
        crate::movegen::attacks::lemma_witness(kings@);
    }
    let bits = st.castling().as_u8();
    let wk = Some(Piece::new(Color::White, PieceType::King));
    let wr = Some(Piece::new(Color::White, PieceType::Rook));
    let bk = Some(Piece::new(Color::Black, PieceType::King));
    let br = Some(Piece::new(Color::Black, PieceType::Rook));
    let at = |i: u8| -> (p: Option<Piece>)
        requires
            i < 64,
        ensures
            p == board.spec_mailbox()[i as int],
        { board.piece_on(Square::new_unchecked(i)) };
    if bits & 1 == 1 && !(at(4) == wk && at(7) == wr) {
        return false;
    }
    if bits & 2 == 2 && !(at(4) == wk && at(0) == wr) {
        return false;
    }
    if bits & 4 == 4 && !(at(60) == bk && at(63) == br) {
        return false;
    }
    if bits & 8 == 8 && !(at(60) == bk && at(56) == br) {
        return false;
    }
    match st.en_passant() {
        None => true,
        Some(e) => {
            let i = e.index();
            let rank_ok = match us {
                Color::White => i / 8 == 5,
                Color::Black => i / 8 == 2,
            };
            let own_pawns = board.pieces(PieceType::Pawn).and(board.color(us));
            let reach = pawn_attacks(us.flip(), e).and(own_pawns);
            proof {
                assert forall|f: int| #[trigger] reach@.contains(f) == (owns(board.spec_mailbox(), f, us, PieceType::Pawn) && pawn_step(us, f, i as int)) by {
                }
            }
            if reach.is_empty() {
                proof {
                    if ep_reachable(board.spec_mailbox(), us, i as int) {
                        let f = choose|f: int| #[trigger] owns(board.spec_mailbox(), f, us, PieceType::Pawn) && pawn_step(us, f, i as int);
                        assert(reach@.contains(f));
                    }
                }
                return true;
            }
            proof {
                crate::movegen::attacks::lemma_witness(reach@);
                let f = choose|f: int| reach@.contains(f);
                assert(owns(board.spec_mailbox(), f, us, PieceType::Pawn) && pawn_step(us, f, i as int));
            }
            if !rank_ok || at(i).is_some() {
                return false;
            }
            let victim = match us {
                Color::White => i - 8,
                Color::Black => i + 8,
            };
            at(victim) == Some(Piece::new(us.flip(), PieceType::Pawn))
        },
    }
}

} // verus!
