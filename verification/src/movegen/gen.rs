//! Pseudo-legal move generation: every move that obeys how the pieces move,
//! before asking whether it leaves the mover's own king attacked.
use vstd::prelude::*;
use crate::board::{Bitboard, Board, CastlingRights, Color, Move, MoveType, Piece, PieceType, Square, State};
use crate::board::piece::other;
use crate::board::moves::{type_is_capture, type_is_promotion};
use crate::movegen::attacks::{
    bishop_attacks, bishop_set, king_attacks, king_step, knight_attacks, knight_step, occupancy,
    add_offset, attacked, is_attacked, lemma_offset, offset, pawn_attacks, pawn_step,
    queen_attacks, queen_set, rook_attacks, rook_set,
};
use crate::movegen::list::{
    MoveList, extends_with, holds_move, lemma_extends_equiv, lemma_extends_trans, lemma_holds_extend,
    lemma_no_repeats_join, lemma_no_repeats_push, no_repeats, same_move,
};

verus! {

/// Appends a move of type `ty` from `from` to every square of `targets`.
fn push_targets(list: &mut MoveList, from: Square, targets: Bitboard, ty: MoveType)
    requires
        !targets@.contains(from.idx()),
        ty != MoveType::Reserved6,
        ty != MoveType::Reserved7,
    ensures
        extends_with(
            old(list)@,
            final(list)@,
            |f: int, t: int, y: MoveType| f == from.idx() && targets@.contains(t) && y == ty,
        ),
{
    let ghost l0 = list@;
    let ghost n0 = list@.len();
    let mut rest = targets;
    proof {
        targets.lemma_view();
        assert(list@.subrange(0, n0 as int) =~= l0);
    }
    loop
        invariant
            !targets@.contains(from.idx()),
            ty != MoveType::Reserved6,
            ty != MoveType::Reserved7,
            n0 == l0.len(),
            n0 <= list@.len(),
            list@.subrange(0, n0 as int) == l0,
            no_repeats(list@, n0 as int),
            rest@.subset_of(targets@),
            forall|i: int| #[trigger] targets@.contains(i) ==> 0 <= i < 64,
            forall|j: int|
                #![trigger list@[j]]
                n0 <= j < list@.len() ==> list@[j].from_idx() == from.idx() && list@[j].spec_type()
                    == ty && targets@.contains(list@[j].to_idx()) && !rest@.contains(
                    list@[j].to_idx(),
                ),
            forall|t: int|
                #[trigger] targets@.contains(t) && !rest@.contains(t) ==> holds_move(
                    list@,
                    n0 as int,
                    list@.len() as int,
                    from.idx(),
                    t,
                    ty,
                ),
        ensures
            rest@ == Set::<int>::empty(),
            no_repeats(list@, n0 as int),
            n0 <= list@.len(),
            list@.subrange(0, n0 as int) == l0,
            forall|j: int|
                #![trigger list@[j]]
                n0 <= j < list@.len() ==> list@[j].from_idx() == from.idx() && list@[j].spec_type()
                    == ty && targets@.contains(list@[j].to_idx()),
            forall|t: int|
                #[trigger] targets@.contains(t) ==> holds_move(
                    list@,
                    n0 as int,
                    list@.len() as int,
                    from.idx(),
                    t,
                    ty,
                ),
        decreases rest@.len(),
    {
        proof {
            rest.lemma_view();
        }
        let ghost before = list@;
        let ghost rest0 = rest@;
        match rest.next() {
            None => {
                proof {
                    assert forall|t: int| #[trigger] targets@.contains(t) implies holds_move(
                        list@,
                        n0 as int,
                        list@.len() as int,
                        from.idx(),
                        t,
                        ty,
                    ) by {
                        assert(!rest@.contains(t));
                    }
                }
                break;
            },
            Some(to) => {
                let mv = Move::new(from, to, ty);
                proof {
                    assert forall|i: int| n0 <= i < before.len() implies !same_move(#[trigger] before[i], mv) by {
                        assert(!rest0.contains(before[i].to_idx()));
                    }
                    lemma_no_repeats_push(before, mv, n0 as int);
                }
                list.push(mv);
                proof {
                    assert(rest@.subset_of(targets@));
                    assert(list@.subrange(0, n0 as int) =~= before.subrange(0, n0 as int));
                    assert forall|t: int| #[trigger] targets@.contains(t) && !rest@.contains(t)
                        implies holds_move(list@, n0 as int, list@.len() as int, from.idx(), t, ty) by {
                        if t == to.idx() {
                            let j = before.len() as int;
                            assert(list@[j] == mv);
                            assert(list@[j].from_idx() == from.idx() && list@[j].to_idx() == t
                                && list@[j].spec_type() == ty);
                        } else {
                            assert(!rest0.contains(t));
                            let j = choose|j: int|
                                n0 <= j < before.len() && #[trigger] before[j].from_idx() == from.idx()
                                    && before[j].to_idx() == t && before[j].spec_type() == ty;
                            assert(list@[j] == before[j]);
                        }
                    }
                    assert forall|j: int| #![trigger list@[j]] n0 <= j < list@.len() implies list@[j].from_idx()
                        == from.idx() && list@[j].spec_type() == ty && targets@.contains(
                        list@[j].to_idx(),
                    ) && !rest@.contains(list@[j].to_idx()) by {
                        if j < before.len() {
                            assert(list@[j] == before[j]);
                        }
                    }
                }
            },
        }
    }
    proof {
        assert forall|t: int| #[trigger] targets@.contains(t) implies !rest@.contains(t) by {}
    }
}

/// A piece of kind `k` on `f` reaches `t` over the occupancy `occ` (pawns,
/// which move and capture differently, reach nothing here).
pub open spec fn reach(k: PieceType, f: int, t: int, occ: Set<int>) -> bool {
    match k {
        PieceType::Knight => knight_step(f, t),
        PieceType::Bishop => bishop_set(f, occ).contains(t),
        PieceType::Rook => rook_set(f, occ).contains(t),
        PieceType::Queen => queen_set(f, occ).contains(t),
        PieceType::King => king_step(f, t),
        PieceType::Pawn => false,
    }
}

/// Square `i` of `mb` holds a piece of color `c` and kind `k`.
pub open spec fn owns(mb: Seq<Option<Piece>>, i: int, c: Color, k: PieceType) -> bool {
    0 <= i < 64 && mb[i] is Some && mb[i]->0.spec_color() == c && mb[i]->0.spec_kind() == k
}

/// Square `i` of `mb` holds a piece of the side opposing `us`.
pub open spec fn enemy_on(mb: Seq<Option<Piece>>, i: int, us: Color) -> bool {
    0 <= i < 64 && mb[i] is Some && mb[i]->0.spec_color() == other(us)
}

/// Square `i` of `mb` is an empty square of the board.
pub open spec fn empty_on(mb: Seq<Option<Piece>>, i: int) -> bool {
    0 <= i < 64 && mb[i] is None
}

/// `(f, t, ty)` is a move of `us`'s piece of kind `k`: a capture of an
/// enemy piece on a square it reaches (when `captures`), or a quiet move to
/// an empty one (when `quiets`).
pub open spec fn piece_move(
    mb: Seq<Option<Piece>>,
    us: Color,
    k: PieceType,
    captures: bool,
    quiets: bool,
    f: int,
    t: int,
    ty: MoveType,
) -> bool {
    &&& owns(mb, f, us, k)
    &&& reach(k, f, t, occupancy(mb))
    &&& (captures && ty == MoveType::Capture && enemy_on(mb, t, us)) || (quiets && ty
        == MoveType::Quiet && empty_on(mb, t))
}

/// The squares a piece of kind `k` (not a pawn) on `from` reaches.
pub fn reach_set(kind: PieceType, from: Square, occ: Bitboard) -> (b: Bitboard)
    requires
        kind != PieceType::Pawn,
    ensures
        forall|t: int| #[trigger] b@.contains(t) == reach(kind, from.idx(), t, occ@),
{
    let b = match kind {
        PieceType::Knight => knight_attacks(from),
        PieceType::Bishop => bishop_attacks(from, occ),
        PieceType::Rook => rook_attacks(from, occ),
        PieceType::Queen => queen_attacks(from, occ),
        _ => king_attacks(from),
    };
    b
}

/// Appends the moves of `us`'s pieces of kind `kind`: captures when
/// `captures`, quiet moves when `quiets`.
fn gen_piece_moves(board: &Board, list: &mut MoveList, kind: PieceType, captures: bool, quiets: bool)
    requires
        board.layout_ok(),
        kind != PieceType::Pawn,
    ensures
        extends_with(
            old(list)@,
            final(list)@,
            |f: int, t: int, ty: MoveType|
                piece_move(
                    board.spec_mailbox(),
                    board.spec_state().spec_side(),
                    kind,
                    captures,
                    quiets,
                    f,
                    t,
                    ty,
                ),
        ),
{
    let ghost mb = board.spec_mailbox();
    let us = board.state().side_to_move();
    let ghost l0 = list@;
    let ghost n0 = list@.len();
    proof {
        board.lemma_mailbox_len();
        assert(list@.subrange(0, n0 as int) =~= l0);
    }
    let own = board.pieces(kind).and(board.color(us));
    let them = board.color(us.flip());
    let occ = board.occupied();
    let empty = occ.complement();
    assert(occ@ =~= occupancy(mb));
    let mut rest = own;
    loop
        invariant
            board.layout_ok(),
            kind != PieceType::Pawn,
            mb == board.spec_mailbox(),
            mb.len() == 64,
            us == board.spec_state().spec_side(),
            occ@ == occupancy(mb),
            forall|i: int| #[trigger] them@.contains(i) == enemy_on(mb, i, us),
            forall|i: int| #[trigger] empty@.contains(i) == empty_on(mb, i),
            forall|i: int| #[trigger] own@.contains(i) == owns(mb, i, us, kind),
            rest@.subset_of(own@),
            n0 == l0.len(),
            n0 <= list@.len(),
            list@.subrange(0, n0 as int) == l0,
            no_repeats(list@, n0 as int),
            forall|j: int|
                #![trigger list@[j]]
                n0 <= j < list@.len() ==> piece_move(mb, us, kind, captures, quiets, list@[j].from_idx(), list@[j].to_idx(), list@[j].spec_type())
                    && !rest@.contains(list@[j].from_idx()),
            forall|f: int, t: int, ty: MoveType|
                #[trigger] piece_move(mb, us, kind, captures, quiets, f, t, ty) && !rest@.contains(f) ==> holds_move(
                    list@,
                    n0 as int,
                    list@.len() as int,
                    f,
                    t,
                    ty,
                ),
        ensures
            n0 <= list@.len(),
            list@.subrange(0, n0 as int) == l0,
            no_repeats(list@, n0 as int),
            forall|j: int|
                #![trigger list@[j]]
                n0 <= j < list@.len() ==> piece_move(mb, us, kind, captures, quiets, list@[j].from_idx(), list@[j].to_idx(), list@[j].spec_type()),
            forall|f: int, t: int, ty: MoveType|
                #[trigger] piece_move(mb, us, kind, captures, quiets, f, t, ty) ==> holds_move(list@, n0 as int, list@.len() as int, f, t, ty),
        decreases rest@.len(),
    {
        proof {
            rest.lemma_view();
        }
        let ghost rest0 = rest@;
        let ghost before = list@;
        match rest.next() {
            None => {
                break;
            },
            Some(from) => {
                let reached = reach_set(kind, from, occ);
                let caps = reached.and(them);
                let quiet = reached.and(empty);
                let ghost mid = list@;
                if captures {
                    push_targets(list, from, caps, MoveType::Capture);
                }
                let ghost mid2 = list@;
                if quiets {
                    push_targets(list, from, quiet, MoveType::Quiet);
                }
                proof {
                    let f0 = from.idx();
                    assert(own@.contains(f0));
                    if !captures {
                        assert(mid2 =~= before);
                    }
                    if !quiets {
                        assert(list@ =~= mid2);
                    }
                    assert(no_repeats(mid2, before.len() as int));
                    assert(no_repeats(list@, mid2.len() as int));
                    assert forall|a: int, b: int| before.len() <= a < mid2.len() <= b < list@.len() implies !same_move(
                        #[trigger] list@[a],
                        #[trigger] list@[b],
                    ) by {
                        assert(list@[a] == list@.subrange(0, mid2.len() as int)[a]);
                        assert(mid2[a].spec_type() == MoveType::Capture);
                        assert(list@[b].spec_type() == MoveType::Quiet);
                    }
                    assert(list@.subrange(0, mid2.len() as int) == mid2) by {
                        if !quiets {
                            assert(list@.subrange(0, mid2.len() as int) =~= mid2);
                        }
                    }
                    lemma_no_repeats_join(mid2, list@, before.len() as int);
                    assert(list@.subrange(0, before.len() as int) =~= before) by {
                        assert(mid2.subrange(0, before.len() as int) =~= before);
                        assert(list@.subrange(0, before.len() as int) =~= list@.subrange(
                            0,
                            mid2.len() as int,
                        ).subrange(0, before.len() as int));
                    }
                    assert forall|a: int, b: int| n0 <= a < before.len() <= b < list@.len() implies !same_move(
                        #[trigger] list@[a],
                        #[trigger] list@[b],
                    ) by {
                        assert(list@[a] == before[a]);
                        assert(!rest0.contains(before[a].from_idx()));
                        if b < mid2.len() {
                            assert(list@[b] == mid2[b]);
                            assert(mid2[b].from_idx() == f0);
                        } else {
                            assert(list@[b].from_idx() == f0);
                        }
                    }
                    lemma_no_repeats_join(before, list@, n0 as int);
                    // The list only grew.
                    assert(mid2.subrange(0, mid.len() as int) == mid) by {
                        if !captures {
                            assert(mid2.subrange(0, mid.len() as int) =~= mid);
                        }
                    }
                    assert(list@.subrange(0, mid2.len() as int) == mid2) by {
                        if !quiets {
                            assert(list@.subrange(0, mid2.len() as int) =~= mid2);
                        }
                    }
                    assert(list@.subrange(0, before.len() as int) =~= before) by {
                        assert(list@.subrange(0, before.len() as int) =~= list@.subrange(
                            0,
                            mid2.len() as int,
                        ).subrange(0, before.len() as int));
                    }
                    assert(list@.subrange(0, n0 as int) =~= l0) by {
                        assert(list@.subrange(0, n0 as int) =~= list@.subrange(
                            0,
                            before.len() as int,
                        ).subrange(0, n0 as int));
                    }
                    assert forall|j: int| #![trigger list@[j]] n0 <= j < list@.len() implies piece_move(
                        mb,
                        us,
                        kind,
                        captures,
                        quiets,
                        list@[j].from_idx(),
                        list@[j].to_idx(),
                        list@[j].spec_type(),
                    ) && !rest@.contains(list@[j].from_idx()) by {
                        if j < before.len() {
                            assert(list@[j] == list@.subrange(0, before.len() as int)[j]);
                        } else if j < mid2.len() {
                            assert(list@[j] == list@.subrange(0, mid2.len() as int)[j]);
                            assert(captures);
                            let m = mid2[j];
                            assert(m.from_idx() == f0 && caps@.contains(m.to_idx()) && m.spec_type()
                                == MoveType::Capture);
                            assert(reached@.contains(m.to_idx()));
                            assert(them@.contains(m.to_idx()));
                        } else {
                            assert(quiets);
                            let m = list@[j];
                            assert(m.from_idx() == f0 && quiet@.contains(m.to_idx()) && m.spec_type()
                                == MoveType::Quiet);
                            assert(reached@.contains(m.to_idx()));
                            assert(empty@.contains(m.to_idx()));
                        }
                    }
                    assert forall|f: int, t: int, ty: MoveType|
                        #[trigger] piece_move(mb, us, kind, captures, quiets, f, t, ty) && !rest@.contains(f) implies holds_move(
                        list@,
                        n0 as int,
                        list@.len() as int,
                        f,
                        t,
                        ty,
                    ) by {
                        if f == f0 {
                            if ty == MoveType::Capture && captures && enemy_on(mb, t, us) {
                                assert(reached@.contains(t));
                                assert(them@.contains(t));
                                assert(caps@.contains(t));
                                assert(holds_move(mid2, mid.len() as int, mid2.len() as int, f, t, ty));
                                let j = choose|j: int|
                                    mid.len() <= j < mid2.len() && #[trigger] mid2[j].from_idx() == f
                                        && mid2[j].to_idx() == t && mid2[j].spec_type() == ty;
                                assert(list@[j] == list@.subrange(0, mid2.len() as int)[j]);
                                assert(list@[j].from_idx() == f);
                            } else {
                                assert(reached@.contains(t));
                                assert(empty@.contains(t));
                                assert(quiet@.contains(t));
                                assert(holds_move(list@, mid2.len() as int, list@.len() as int, f, t, ty));
                                let j = choose|j: int|
                                    mid2.len() <= j < list@.len() && #[trigger] list@[j].from_idx() == f
                                        && list@[j].to_idx() == t && list@[j].spec_type() == ty;
                                assert(list@[j].from_idx() == f);
                            }
                        } else {
                            assert(!rest0.contains(f));
                            lemma_holds_extend(before, list@, n0 as int, f, t, ty);
                        }
                    }
                }
            },
        }
    }
}

/// Whether a pawn landing on `t` promotes: it reaches the first or last rank.
pub open spec fn promo_rank(t: int) -> bool {
    t / 8 == 0 || t / 8 == 7
}

/// The move types of a pawn move onto `t`: the four promotions (capturing or
/// not, as `capture` says) on a promotion rank, else a plain capture or quiet
/// move.
pub open spec fn pawn_kind(ty: MoveType, capture: bool, t: int) -> bool {
    if promo_rank(t) {
        type_is_promotion(ty) && type_is_capture(ty) == capture
    } else {
        ty == (if capture {
            MoveType::Capture
        } else {
            MoveType::Quiet
        })
    }
}

/// Appends the pawn move from `from` to `to`: the four promotions on a
/// promotion rank, else a single capture or quiet move.
fn push_pawn_move(list: &mut MoveList, from: Square, to: Square, capture: bool)
    requires
        from.idx() != to.idx(),
    ensures
        extends_with(
            old(list)@,
            final(list)@,
            |f: int, t: int, y: MoveType| f == from.idx() && t == to.idx() && pawn_kind(y, capture, t),
        ),
{
    let ghost l0 = list@;
    let r = to.rank();
    if r == 0 || r == 7 {
        let kinds = if capture {
            [
                MoveType::KnightPromoCap,
                MoveType::BishopPromoCap,
                MoveType::RookPromoCap,
                MoveType::QueenPromoCap,
            ]
        } else {
            [MoveType::KnightPromo, MoveType::BishopPromo, MoveType::RookPromo, MoveType::QueenPromo]
        };
        list.push(Move::new(from, to, kinds[0]));
        list.push(Move::new(from, to, kinds[1]));
        list.push(Move::new(from, to, kinds[2]));
        list.push(Move::new(from, to, kinds[3]));
        proof {
            let n = l0.len() as int;
            assert(list@.subrange(0, n) =~= l0);
            assert forall|f: int, t: int, y: MoveType|
                f == from.idx() && t == to.idx() && pawn_kind(y, capture, t) implies #[trigger] holds_move(
                list@,
                n,
                list@.len() as int,
                f,
                t,
                y,
            ) by {
                let k = if y == kinds[0] {
                    0int
                } else if y == kinds[1] {
                    1int
                } else if y == kinds[2] {
                    2int
                } else {
                    3int
                };
                assert(list@[n + k].spec_type() == y);
            }
            assert forall|j: int| #![trigger list@[j]] n <= j < list@.len() implies list@[j].from_idx()
                == from.idx() && list@[j].to_idx() == to.idx() && pawn_kind(
                list@[j].spec_type(),
                capture,
                to.idx(),
            ) by {}
        }
    } else {
        let ty = if capture {
            MoveType::Capture
        } else {
            MoveType::Quiet
        };
        list.push(Move::new(from, to, ty));
        proof {
            let n = l0.len() as int;
            assert(list@.subrange(0, n) =~= l0);
            assert(list@[n].spec_type() == ty);
        }
    }
}

/// The move types of a pawn capture onto `t`: en passant onto the en passant
/// square `ep`, else a capture or the four capturing promotions.
pub open spec fn pawn_capture_kind(ty: MoveType, ep: Set<int>, t: int) -> bool {
    if ep.contains(t) {
        ty == MoveType::EnPassant
    } else {
        pawn_kind(ty, true, t)
    }
}

/// Appends the pawn captures from `from` onto every square of `targets`,
/// as en passant where the square is in `ep`.
fn push_pawn_captures(list: &mut MoveList, from: Square, targets: Bitboard, ep: Bitboard)
    requires
        !targets@.contains(from.idx()),
    ensures
        extends_with(
            old(list)@,
            final(list)@,
            |f: int, t: int, y: MoveType|
                f == from.idx() && targets@.contains(t) && pawn_capture_kind(y, ep@, t),
        ),
{
    let ghost l0 = list@;
    let ghost n0 = list@.len();
    let mut rest = targets;
    proof {
        assert(list@.subrange(0, n0 as int) =~= l0);
    }
    loop
        invariant
            !targets@.contains(from.idx()),
            n0 == l0.len(),
            n0 <= list@.len(),
            list@.subrange(0, n0 as int) == l0,
            no_repeats(list@, n0 as int),
            rest@.subset_of(targets@),
            forall|j: int|
                #![trigger list@[j]]
                n0 <= j < list@.len() ==> list@[j].from_idx() == from.idx() && targets@.contains(
                    list@[j].to_idx(),
                ) && !rest@.contains(list@[j].to_idx()) && pawn_capture_kind(
                    list@[j].spec_type(),
                    ep@,
                    list@[j].to_idx(),
                ),
            forall|t: int, y: MoveType|
                targets@.contains(t) && !rest@.contains(t) && pawn_capture_kind(y, ep@, t)
                    ==> #[trigger] holds_move(list@, n0 as int, list@.len() as int, from.idx(), t, y),
        ensures
            n0 <= list@.len(),
            list@.subrange(0, n0 as int) == l0,
            no_repeats(list@, n0 as int),
            forall|j: int|
                #![trigger list@[j]]
                n0 <= j < list@.len() ==> list@[j].from_idx() == from.idx() && targets@.contains(
                    list@[j].to_idx(),
                ) && pawn_capture_kind(list@[j].spec_type(), ep@, list@[j].to_idx()),
            forall|t: int, y: MoveType|
                targets@.contains(t) && pawn_capture_kind(y, ep@, t) ==> #[trigger] holds_move(
                    list@,
                    n0 as int,
                    list@.len() as int,
                    from.idx(),
                    t,
                    y,
                ),
        decreases rest@.len(),
    {
        proof {
            rest.lemma_view();
        }
        let ghost rest0 = rest@;
        let ghost before = list@;
        match rest.next() {
            None => {
                break;
            },
            Some(to) => {
                if ep.contains(to) {
                    list.push(Move::new(from, to, MoveType::EnPassant));
                    proof {
                        assert(list@[before.len() as int].spec_type() == MoveType::EnPassant);
                    }
                } else {
                    push_pawn_move(list, from, to, true);
                }
                proof {
                    let n1 = before.len() as int;
                    assert(list@.subrange(0, n1) =~= before) by {
                        if ep@.contains(to.idx()) {
                            assert(list@.subrange(0, n1) =~= before);
                        }
                    }
                    assert(list@.subrange(0, n0 as int) =~= l0) by {
                        assert(list@.subrange(0, n0 as int) =~= list@.subrange(0, n1).subrange(
                            0,
                            n0 as int,
                        ));
                    }
                    assert(no_repeats(list@, n1));
                    assert forall|a: int, b: int| n0 <= a < n1 <= b < list@.len() implies !same_move(
                        #[trigger] list@[a],
                        #[trigger] list@[b],
                    ) by {
                        assert(list@[a] == before[a]);
                        assert(!rest0.contains(before[a].to_idx()));
                        assert(list@[b].to_idx() == to.idx());
                    }
                    lemma_no_repeats_join(before, list@, n0 as int);
                    assert forall|j: int| #![trigger list@[j]] n0 <= j < list@.len() implies list@[j].from_idx()
                        == from.idx() && targets@.contains(list@[j].to_idx()) && !rest@.contains(
                        list@[j].to_idx(),
                    ) && pawn_capture_kind(list@[j].spec_type(), ep@, list@[j].to_idx()) by {
                        if j < n1 {
                            assert(list@[j] == list@.subrange(0, n1)[j]);
                        }
                    }
                    assert forall|t: int, y: MoveType|
                        targets@.contains(t) && !rest@.contains(t) && pawn_capture_kind(y, ep@, t)
                            implies #[trigger] holds_move(list@, n0 as int, list@.len() as int, from.idx(), t, y) by {
                        if t == to.idx() {
                            if ep@.contains(t) {
                                assert(list@[n1].from_idx() == from.idx());
                            } else {
                                assert(holds_move(list@, n1, list@.len() as int, from.idx(), t, y));
                                let j = choose|j: int|
                                    n1 <= j < list@.len() && #[trigger] list@[j].from_idx() == from.idx()
                                        && list@[j].to_idx() == t && list@[j].spec_type() == y;
                                assert(list@[j].from_idx() == from.idx());
                            }
                        } else {
                            assert(!rest0.contains(t));
                            lemma_holds_extend(before, list@, n0 as int, from.idx(), t, y);
                        }
                    }
                }
            },
        }
    }
}

/// The square one rank ahead of `f` for a pawn of color `c`.
pub open spec fn forward(c: Color, f: int) -> int {
    if c == Color::White {
        f + 8
    } else {
        f - 8
    }
}

/// The rank a pawn of color `c` starts on, from which it may advance two.
pub open spec fn start_rank(c: Color) -> int {
    if c == Color::White {
        1
    } else {
        6
    }
}

/// The en passant target as a set of squares.
pub open spec fn ep_set(ep: Option<Square>) -> Set<int> {
    match ep {
        Some(s) => set![s.idx()],
        None => Set::empty(),
    }
}

/// `(f, t, ty)` is a move of `us`'s pawn on `f`: a push one square onto an
/// empty square (promoting on the last rank) or two from the start rank over
/// two empty squares, when `quiets`; a diagonal capture of an enemy piece
/// (promoting on the last rank) or onto the en passant square `ep`, when
/// `captures`.
pub open spec fn pawn_move(
    mb: Seq<Option<Piece>>,
    us: Color,
    ep: Option<Square>,
    captures: bool,
    quiets: bool,
    f: int,
    t: int,
    ty: MoveType,
) -> bool {
    &&& owns(mb, f, us, PieceType::Pawn)
    &&& {
        ||| quiets && t == forward(us, f) && empty_on(mb, t) && pawn_kind(ty, false, t)
        ||| quiets && f / 8 == start_rank(us) && empty_on(mb, forward(us, f)) && t == forward(
            us,
            forward(us, f),
        ) && empty_on(mb, t) && ty == MoveType::DoublePawnPush
        ||| captures && pawn_step(us, f, t) && (enemy_on(mb, t, us) || ep_set(ep).contains(t))
            && pawn_capture_kind(ty, ep_set(ep), t)
    }
}

/// The rank a pawn of color `c` moves toward, one step at a time.
pub open spec fn pawn_dir(c: Color) -> int {
    if c == Color::White {
        1
    } else {
        -1
    }
}

/// One part of the pawn moves of `us`, in the order they are generated:
/// single pushes (part 0), double pushes (1), captures toward the a-file
/// (2) and captures toward the h-file (3).
pub open spec fn pawn_part(
    mb: Seq<Option<Piece>>,
    us: Color,
    ep: Option<Square>,
    captures: bool,
    quiets: bool,
    part: int,
    f: int,
    t: int,
    ty: MoveType,
) -> bool {
    &&& owns(mb, f, us, PieceType::Pawn)
    &&& if part == 0 {
        quiets && t == forward(us, f) && empty_on(mb, t) && pawn_kind(ty, false, t)
    } else if part == 1 {
        quiets && f / 8 == start_rank(us) && empty_on(mb, forward(us, f)) && t == forward(
            us,
            forward(us, f),
        ) && empty_on(mb, t) && ty == MoveType::DoublePawnPush
    } else {
        &&& captures
        &&& offset(
            f,
            if part == 2 {
                -1int
            } else {
                1int
            },
            pawn_dir(us),
        ) == Some(t)
        &&& enemy_on(mb, t, us) || ep_set(ep).contains(t)
        &&& pawn_capture_kind(ty, ep_set(ep), t)
    }
}

/// A pawn move is a move of one of the four parts.
proof fn lemma_pawn_parts(
    mb: Seq<Option<Piece>>,
    us: Color,
    ep: Option<Square>,
    captures: bool,
    quiets: bool,
    f: int,
    t: int,
    ty: MoveType,
)
    ensures
        pawn_move(mb, us, ep, captures, quiets, f, t, ty) == (pawn_part(
            mb,
            us,
            ep,
            captures,
            quiets,
            0,
            f,
            t,
            ty,
        ) || pawn_part(mb, us, ep, captures, quiets, 1, f, t, ty) || pawn_part(
            mb,
            us,
            ep,
            captures,
            quiets,
            2,
            f,
            t,
            ty,
        ) || pawn_part(mb, us, ep, captures, quiets, 3, f, t, ty)),
{
    if 0 <= f < 64 {
        lemma_offset(f, -1, pawn_dir(us));
        lemma_offset(f, 1, pawn_dir(us));
        if 0 <= t < 64 {
            if pawn_step(us, f, t) {
                if t % 8 < f % 8 {
                    assert(offset(f, -1, pawn_dir(us)) == Some(t));
                } else {
                    assert(offset(f, 1, pawn_dir(us)) == Some(t));
                }
            }
        }
    }
}

/// Appends the moves of part `part` (see [`pawn_part`]) of `us`'s pawn on
/// `from`.
fn pawn_part_from(board: &Board, list: &mut MoveList, from: Square, part: u8, captures: bool, quiets: bool)
    requires
        board.layout_ok(),
        owns(board.spec_mailbox(), from.idx(), board.spec_state().spec_side(), PieceType::Pawn),
        part < 4,
    ensures
        extends_with(
            old(list)@,
            final(list)@,
            |f: int, t: int, ty: MoveType|
                f == from.idx() && pawn_part(
                    board.spec_mailbox(),
                    board.spec_state().spec_side(),
                    board.spec_state().spec_ep(),
                    captures,
                    quiets,
                    part as int,
                    f,
                    t,
                    ty,
                ),
        ),
{
    let ghost mb = board.spec_mailbox();
    let us = board.state().side_to_move();
    let ep = board.state().en_passant();
    let ghost f0 = from.idx();
    let ghost pp = |f: int, t: int, ty: MoveType|
        f == from.idx() && pawn_part(mb, us, ep, captures, quiets, part as int, f, t, ty);
    proof {
        board.lemma_mailbox_len();
        lemma_offset_pawn(us, f0);
    }
    let empty = board.occupied().complement();
    assert forall|i: int| #[trigger] empty@.contains(i) == empty_on(mb, i) by {}
    let ghost m0 = list@;
    let fi = from.index();
    if part == 0 {
        let one = match us {
            Color::White => if fi < 56 {
                Some(Square::new_unchecked(fi + 8))
            } else {
                None
            },
            Color::Black => if fi >= 8 {
                Some(Square::new_unchecked(fi - 8))
            } else {
                None
            },
        };
        let mut pushed = false;
        if quiets {
            if let Some(t1) = one {
                if empty.contains(t1) {
                    push_pawn_move(list, from, t1, false);
                    pushed = true;
                }
            }
        }
        proof {
            if pushed {
                let t1 = one->0;
                crate::movegen::list::lemma_extends_equiv(
                    m0,
                    list@,
                    |f: int, t: int, y: MoveType| f == from.idx() && t == t1.idx() && pawn_kind(y, false, t),
                    pp,
                );
            } else {
                crate::movegen::list::lemma_extends_refl(m0, |f: int, t: int, y: MoveType| false);
                crate::movegen::list::lemma_extends_equiv(
                    m0,
                    list@,
                    |f: int, t: int, y: MoveType| false,
                    pp,
                );
            }
        }
    } else if part == 1 {
        let start: u8 = match us {
            Color::White => 1,
            Color::Black => 6,
        };
        let mut pushed = false;
        if quiets && from.rank() == start {
            let (t1, t2) = match us {
                Color::White => (Square::new_unchecked(fi + 8), Square::new_unchecked(fi + 16)),
                Color::Black => (Square::new_unchecked(fi - 8), Square::new_unchecked(fi - 16)),
            };
            if empty.contains(t1) && empty.contains(t2) {
                list.push(Move::new(from, t2, MoveType::DoublePawnPush));
                pushed = true;
            }
        }
        proof {
            let n = m0.len() as int;
            if pushed {
                assert(list@.subrange(0, n) =~= m0);
                assert(list@[n].spec_type() == MoveType::DoublePawnPush);
                assert forall|f: int, t: int, ty: MoveType| #[trigger] pp(f, t, ty) implies holds_move(
                    list@,
                    n,
                    list@.len() as int,
                    f,
                    t,
                    ty,
                ) by {
                    assert(list@[n].from_idx() == f && list@[n].to_idx() == t);
                }
                assert(extends_with(m0, list@, pp));
            } else {
                crate::movegen::list::lemma_extends_refl(m0, |f: int, t: int, y: MoveType| false);
                crate::movegen::list::lemma_extends_equiv(
                    m0,
                    list@,
                    |f: int, t: int, y: MoveType| false,
                    pp,
                );
            }
        }
    } else {
        let ep_bb = match ep {
            Some(e) => Bitboard::from_square(e),
            None => Bitboard::empty(),
        };
        let them = board.color(us.flip());
        let df: i8 = if part == 2 {
            -1
        } else {
            1
        };
        let dr: i8 = match us {
            Color::White => 1,
            Color::Black => -1,
        };
        let side = add_offset(Bitboard::empty(), from, df, dr);
        let targets = side.and(them.or(ep_bb));
        proof {
            lemma_offset(f0, df as int, dr as int);
            assert(ep_bb@ == ep_set(ep));
            assert(!targets@.contains(f0));
        }
        if captures {
            push_pawn_captures(list, from, targets, ep_bb);
            proof {
                crate::movegen::list::lemma_extends_equiv(
                    m0,
                    list@,
                    |f: int, t: int, y: MoveType|
                        f == from.idx() && targets@.contains(t) && pawn_capture_kind(y, ep_bb@, t),
                    pp,
                );
            }
        } else {
            proof {
                crate::movegen::list::lemma_extends_refl(m0, |f: int, t: int, y: MoveType| false);
                crate::movegen::list::lemma_extends_equiv(
                    m0,
                    list@,
                    |f: int, t: int, y: MoveType| false,
                    pp,
                );
            }
        }
    }
}

/// The squares ahead of a pawn, in index arithmetic.
proof fn lemma_offset_pawn(us: Color, f: int)
    requires
        0 <= f < 64,
    ensures
        us == Color::White ==> (forward(us, f) < 64 <==> f < 56),
        us == Color::Black ==> (forward(us, f) >= 0 <==> f >= 8),
{
}

/// Appends the moves of part `part` (see [`pawn_part`]) of all of `us`'s
/// pawns, by origin square.
fn gen_pawn_part(board: &Board, list: &mut MoveList, part: u8, captures: bool, quiets: bool)
    requires
        board.layout_ok(),
        part < 4,
    ensures
        extends_with(
            old(list)@,
            final(list)@,
            |f: int, t: int, ty: MoveType|
                pawn_part(
                    board.spec_mailbox(),
                    board.spec_state().spec_side(),
                    board.spec_state().spec_ep(),
                    captures,
                    quiets,
                    part as int,
                    f,
                    t,
                    ty,
                ),
        ),
{
    let ghost mb = board.spec_mailbox();
    let us = board.state().side_to_move();
    let ghost ep = board.spec_state().spec_ep();
    let ghost l0 = list@;
    let ghost n0 = list@.len();
    let ghost pn = part as int;
    proof {
        board.lemma_mailbox_len();
        assert(list@.subrange(0, n0 as int) =~= l0);
    }
    let own = board.pieces(PieceType::Pawn).and(board.color(us));
    let mut rest = own;
    loop
        invariant
            board.layout_ok(),
            part < 4,
            pn == part,
            mb == board.spec_mailbox(),
            mb.len() == 64,
            us == board.spec_state().spec_side(),
            ep == board.spec_state().spec_ep(),
            forall|i: int| #[trigger] own@.contains(i) == owns(mb, i, us, PieceType::Pawn),
            rest@.subset_of(own@),
            n0 == l0.len(),
            n0 <= list@.len(),
            list@.subrange(0, n0 as int) == l0,
            no_repeats(list@, n0 as int),
            forall|j: int|
                #![trigger list@[j]]
                n0 <= j < list@.len() ==> pawn_part(
                    mb,
                    us,
                    ep,
                    captures,
                    quiets,
                    pn,
                    list@[j].from_idx(),
                    list@[j].to_idx(),
                    list@[j].spec_type(),
                ) && !rest@.contains(list@[j].from_idx()),
            forall|f: int, t: int, ty: MoveType|
                #[trigger] pawn_part(mb, us, ep, captures, quiets, pn, f, t, ty) && !rest@.contains(f)
                    ==> holds_move(list@, n0 as int, list@.len() as int, f, t, ty),
        ensures
            n0 <= list@.len(),
            list@.subrange(0, n0 as int) == l0,
            no_repeats(list@, n0 as int),
            forall|j: int|
                #![trigger list@[j]]
                n0 <= j < list@.len() ==> pawn_part(
                    mb,
                    us,
                    ep,
                    captures,
                    quiets,
                    pn,
                    list@[j].from_idx(),
                    list@[j].to_idx(),
                    list@[j].spec_type(),
                ),
            forall|f: int, t: int, ty: MoveType|
                #[trigger] pawn_part(mb, us, ep, captures, quiets, pn, f, t, ty) ==> holds_move(
                    list@,
                    n0 as int,
                    list@.len() as int,
                    f,
                    t,
                    ty,
                ),
        decreases rest@.len(),
    {
        proof {
            rest.lemma_view();
        }
        let ghost rest0 = rest@;
        let ghost before = list@;
        match rest.next() {
            None => {
                break;
            },
            Some(from) => {
                pawn_part_from(board, list, from, part, captures, quiets);
                proof {
                    let f0 = from.idx();
                    let nb = before.len() as int;
                    assert(list@.subrange(0, n0 as int) =~= l0) by {
                        assert(list@.subrange(0, n0 as int) =~= list@.subrange(0, nb).subrange(
                            0,
                            n0 as int,
                        ));
                    }
                    assert(no_repeats(list@, nb));
                    assert forall|a: int, b: int| n0 <= a < nb <= b < list@.len() implies !same_move(
                        #[trigger] list@[a],
                        #[trigger] list@[b],
                    ) by {
                        assert(list@[a] == before[a]);
                        assert(!rest0.contains(before[a].from_idx()));
                        assert(list@[b].from_idx() == f0);
                    }
                    lemma_no_repeats_join(before, list@, n0 as int);
                    assert forall|j: int| #![trigger list@[j]] n0 <= j < list@.len() implies pawn_part(
                        mb,
                        us,
                        ep,
                        captures,
                        quiets,
                        pn,
                        list@[j].from_idx(),
                        list@[j].to_idx(),
                        list@[j].spec_type(),
                    ) && !rest@.contains(list@[j].from_idx()) by {
                        if j < nb {
                            assert(list@[j] == list@.subrange(0, nb)[j]);
                        }
                    }
                    assert forall|f: int, t: int, ty: MoveType|
                        #[trigger] pawn_part(mb, us, ep, captures, quiets, pn, f, t, ty) && !rest@.contains(f)
                            implies holds_move(list@, n0 as int, list@.len() as int, f, t, ty) by {
                        if f == f0 {
                            assert(holds_move(list@, nb, list@.len() as int, f, t, ty));
                            let j = choose|j: int|
                                nb <= j < list@.len() && #[trigger] list@[j].from_idx() == f
                                    && list@[j].to_idx() == t && list@[j].spec_type() == ty;
                            assert(list@[j].from_idx() == f);
                        } else {
                            assert(!rest0.contains(f));
                            lemma_holds_extend(before, list@, n0 as int, f, t, ty);
                        }
                    }
                }
            },
        }
    }
}

/// Appends the moves of all of `us`'s pawns: every single push, then every
/// double push, then the captures toward the a-file, then those toward the
/// h-file, each part by origin square.
fn gen_pawn_moves(board: &Board, list: &mut MoveList, captures: bool, quiets: bool)
    requires
        board.layout_ok(),
    ensures
        extends_with(
            old(list)@,
            final(list)@,
            |f: int, t: int, ty: MoveType|
                pawn_move(
                    board.spec_mailbox(),
                    board.spec_state().spec_side(),
                    board.spec_state().spec_ep(),
                    captures,
                    quiets,
                    f,
                    t,
                    ty,
                ),
        ),
{
    let ghost mb = board.spec_mailbox();
    let ghost us = board.spec_state().spec_side();
    let ghost ep = board.spec_state().spec_ep();
    let ghost l0 = list@;
    gen_pawn_part(board, list, 0, captures, quiets);
    let ghost l1 = list@;
    gen_pawn_part(board, list, 1, captures, quiets);
    let ghost l2 = list@;
    gen_pawn_part(board, list, 2, captures, quiets);
    let ghost l3 = list@;
    gen_pawn_part(board, list, 3, captures, quiets);
    proof {
        let p0 = |f: int, t: int, ty: MoveType| pawn_part(mb, us, ep, captures, quiets, 0, f, t, ty);
        let p1 = |f: int, t: int, ty: MoveType| pawn_part(mb, us, ep, captures, quiets, 1, f, t, ty);
        let p2 = |f: int, t: int, ty: MoveType| pawn_part(mb, us, ep, captures, quiets, 2, f, t, ty);
        let p3 = |f: int, t: int, ty: MoveType| pawn_part(mb, us, ep, captures, quiets, 3, f, t, ty);
        lemma_extends_trans(l0, l1, l2, p0, p1);
        let a1 = |f: int, t: int, ty: MoveType| p0(f, t, ty) || p1(f, t, ty);
        lemma_extends_trans(l0, l2, l3, a1, p2);
        let a2 = |f: int, t: int, ty: MoveType| a1(f, t, ty) || p2(f, t, ty);
        lemma_extends_trans(l0, l3, list@, a2, p3);
        let a3 = |f: int, t: int, ty: MoveType| a2(f, t, ty) || p3(f, t, ty);
        let pm = |f: int, t: int, ty: MoveType| pawn_move(mb, us, ep, captures, quiets, f, t, ty);
        assert forall|f: int, t: int, ty: MoveType| #[trigger] a3(f, t, ty) == pm(f, t, ty) by {
            lemma_pawn_parts(mb, us, ep, captures, quiets, f, t, ty);
        }
        lemma_extends_equiv(l0, list@, a3, pm);
    }
}

/// `(f, t, ty)` castles `us`'s king: the right is held, the squares between
/// king and rook are empty, and the king neither stands on, passes over nor
/// lands on an attacked square.
pub open spec fn castle_move(mb: Seq<Option<Piece>>, us: Color, bits: u8, f: int, t: int, ty: MoveType) -> bool {
    let them = other(us);
    let base: int = if us == Color::White {
        0
    } else {
        56
    };
    let king_right: u8 = if us == Color::White {
        1
    } else {
        4
    };
    let queen_right: u8 = if us == Color::White {
        2
    } else {
        8
    };
    ||| ty == MoveType::KingCastle && f == base + 4 && t == base + 6 && bits & king_right == king_right
        && empty_on(mb, base + 5) && empty_on(mb, base + 6) && !attacked(mb, base + 4, them)
        && !attacked(mb, base + 5, them) && !attacked(mb, base + 6, them)
    ||| ty == MoveType::QueenCastle && f == base + 4 && t == base + 2 && bits & queen_right
        == queen_right && empty_on(mb, base + 3) && empty_on(mb, base + 2) && empty_on(mb, base + 1)
        && !attacked(mb, base + 4, them) && !attacked(mb, base + 3, them) && !attacked(
        mb,
        base + 2,
        them,
    )
}

/// Appends the castling moves of the side to move.
fn gen_castles(board: &Board, list: &mut MoveList)
    requires
        board.layout_ok(),
    ensures
        extends_with(
            old(list)@,
            final(list)@,
            |f: int, t: int, ty: MoveType|
                castle_move(
                    board.spec_mailbox(),
                    board.spec_state().spec_side(),
                    board.spec_state().spec_castling().bits(),
                    f,
                    t,
                    ty,
                ),
        ),
{
    let ghost mb = board.spec_mailbox();
    let ghost l0 = list@;
    let us = board.state().side_to_move();
    let them = us.flip();
    let (origin, king_right, queen_right, king_transit, king_to, queen_transit, queen_to, rook_gap) =
        match us {
        Color::White => (
            4u8,
            CastlingRights::white_king(),
            CastlingRights::white_queen(),
            5u8,
            6u8,
            3u8,
            2u8,
            1u8,
        ),
        Color::Black => (
            60u8,
            CastlingRights::black_king(),
            CastlingRights::black_queen(),
            61u8,
            62u8,
            59u8,
            58u8,
            57u8,
        ),
    };
    let rights = board.state().castling();
    let occ = board.occupied();
    proof {
        board.lemma_mailbox_len();
    }
    let sq_o = Square::new_unchecked(origin);
    let sq_kt = Square::new_unchecked(king_transit);
    let sq_kto = Square::new_unchecked(king_to);
    let sq_qt = Square::new_unchecked(queen_transit);
    let sq_qto = Square::new_unchecked(queen_to);
    let sq_gap = Square::new_unchecked(rook_gap);
    let king_side = rights.contains(king_right) && !occ.contains(sq_kt) && !occ.contains(sq_kto)
        && !is_attacked(board, sq_o, them) && !is_attacked(board, sq_kt, them) && !is_attacked(
        board,
        sq_kto,
        them,
    );
    if king_side {
        list.push(Move::new(sq_o, sq_kto, MoveType::KingCastle));
    }
    let ghost l1 = list@;
    let queen_side = rights.contains(queen_right) && !occ.contains(sq_qt) && !occ.contains(sq_qto)
        && !occ.contains(sq_gap) && !is_attacked(board, sq_o, them) && !is_attacked(
        board,
        sq_qt,
        them,
    ) && !is_attacked(board, sq_qto, them);
    if queen_side {
        list.push(Move::new(sq_o, sq_qto, MoveType::QueenCastle));
    }
    proof {
        let n = l0.len() as int;
        assert(list@.subrange(0, n) =~= l0) by {
            if queen_side {
                assert(list@.subrange(0, n) =~= l1.subrange(0, n));
            }
        }
        if king_side {
            assert(list@[n].spec_type() == MoveType::KingCastle);
        }
        if queen_side {
            assert(list@[l1.len() as int].spec_type() == MoveType::QueenCastle);
        }
    }
}

/// Which half of the move set to generate.
#[derive(Debug, Clone, Copy, PartialEq, Eq, Structural)]
pub enum GenMode {
    /// Captures and promotion captures only.
    Captures,
    /// Everything that is not a capture: quiet moves, quiet promotions, and
    /// castling. The complement of `Captures`, so the two partition `All`.
    Quiets,
    /// The full pseudo-legal move set.
    All,
}

impl GenMode {
    /// Whether this mode generates captures.
    pub open spec fn spec_captures(self) -> bool {
        self != GenMode::Quiets
    }

    /// Whether this mode generates non-captures.
    pub open spec fn spec_quiets(self) -> bool {
        self != GenMode::Captures
    }

    fn captures(self) -> (b: bool)
        ensures
            b == self.spec_captures(),
    {
        self != GenMode::Quiets
    }

    fn quiets(self) -> (b: bool)
        ensures
            b == self.spec_quiets(),
    {
        self != GenMode::Captures
    }
}

/// `(f, t, ty)` is a pseudo-legal move on `mb` with state `st`: a move that
/// obeys how the piece on `f` moves, without asking whether it leaves the
/// mover's king attacked. `captures` admits the capturing moves (captures,
/// capturing promotions, en passant), `quiets` the rest (quiet moves and
/// promotions, double pushes, castling).
pub open spec fn pseudo_move(
    mb: Seq<Option<Piece>>,
    st: State,
    captures: bool,
    quiets: bool,
    f: int,
    t: int,
    ty: MoveType,
) -> bool {
    let us = st.spec_side();
    ||| pawn_move(mb, us, st.spec_ep(), captures, quiets, f, t, ty)
    ||| piece_move(mb, us, PieceType::Knight, captures, quiets, f, t, ty)
    ||| piece_move(mb, us, PieceType::Bishop, captures, quiets, f, t, ty)
    ||| piece_move(mb, us, PieceType::Rook, captures, quiets, f, t, ty)
    ||| piece_move(mb, us, PieceType::Queen, captures, quiets, f, t, ty)
    ||| piece_move(mb, us, PieceType::King, captures, quiets, f, t, ty)
    ||| quiets && castle_move(mb, us, st.spec_castling().bits(), f, t, ty)
}

/// `new` is `old` followed by exactly the pseudo-legal moves of `board` of
/// the kinds `mode` asks for.
pub open spec fn generated(board: Board, mode: GenMode, old: Seq<Move>, new: Seq<Move>) -> bool {
    extends_with(
        old,
        new,
        |f: int, t: int, ty: MoveType|
            pseudo_move(
                board.spec_mailbox(),
                board.spec_state(),
                mode.spec_captures(),
                mode.spec_quiets(),
                f,
                t,
                ty,
            ),
    )
}

/// The body every generator shares, so that the capture set cannot drift out
/// of agreement with the full set.
fn generate(board: &Board, list: &mut MoveList, mode: GenMode)
    requires
        board.layout_ok(),
    ensures
        generated(*board, mode, old(list)@, final(list)@),
{
    let ghost mb = board.spec_mailbox();
    let ghost st = board.spec_state();
    let ghost us = st.spec_side();
    let captures = mode.captures();
    let quiets = mode.quiets();
    let ghost l0 = list@;
    gen_pawn_moves(board, list, captures, quiets);
    let ghost l1 = list@;
    gen_piece_moves(board, list, PieceType::Knight, captures, quiets);
    let ghost l2 = list@;
    gen_piece_moves(board, list, PieceType::Bishop, captures, quiets);
    let ghost l3 = list@;
    gen_piece_moves(board, list, PieceType::Rook, captures, quiets);
    let ghost l4 = list@;
    gen_piece_moves(board, list, PieceType::Queen, captures, quiets);
    let ghost l5 = list@;
    gen_piece_moves(board, list, PieceType::King, captures, quiets);
    let ghost l6 = list@;
    if quiets {
        gen_castles(board, list);
    }
    proof {
        let pp = |f: int, t: int, ty: MoveType| pawn_move(mb, us, st.spec_ep(), captures, quiets, f, t, ty);
        let pn = |f: int, t: int, ty: MoveType| piece_move(mb, us, PieceType::Knight, captures, quiets, f, t, ty);
        let pb = |f: int, t: int, ty: MoveType| piece_move(mb, us, PieceType::Bishop, captures, quiets, f, t, ty);
        let pr = |f: int, t: int, ty: MoveType| piece_move(mb, us, PieceType::Rook, captures, quiets, f, t, ty);
        let pq = |f: int, t: int, ty: MoveType| piece_move(mb, us, PieceType::Queen, captures, quiets, f, t, ty);
        let pk = |f: int, t: int, ty: MoveType| piece_move(mb, us, PieceType::King, captures, quiets, f, t, ty);
        let pc = |f: int, t: int, ty: MoveType|
            quiets && castle_move(mb, us, st.spec_castling().bits(), f, t, ty);
        if quiets {
            crate::movegen::list::lemma_extends_equiv(
                l6,
                list@,
                |f: int, t: int, ty: MoveType| castle_move(mb, us, st.spec_castling().bits(), f, t, ty),
                pc,
            );
        } else {
            crate::movegen::list::lemma_extends_refl(l6, pc);
        }
        lemma_extends_trans(l0, l1, l2, pp, pn);
        let a2 = |f: int, t: int, ty: MoveType| pp(f, t, ty) || pn(f, t, ty);
        lemma_extends_trans(l0, l2, l3, a2, pb);
        let a3 = |f: int, t: int, ty: MoveType| a2(f, t, ty) || pb(f, t, ty);
        lemma_extends_trans(l0, l3, l4, a3, pr);
        let a4 = |f: int, t: int, ty: MoveType| a3(f, t, ty) || pr(f, t, ty);
        lemma_extends_trans(l0, l4, l5, a4, pq);
        let a5 = |f: int, t: int, ty: MoveType| a4(f, t, ty) || pq(f, t, ty);
        lemma_extends_trans(l0, l5, l6, a5, pk);
        let a6 = |f: int, t: int, ty: MoveType| a5(f, t, ty) || pk(f, t, ty);
        lemma_extends_trans(l0, l6, list@, a6, pc);
        let a7 = |f: int, t: int, ty: MoveType| a6(f, t, ty) || pc(f, t, ty);
        lemma_extends_equiv(
            l0,
            list@,
            a7,
            |f: int, t: int, ty: MoveType|
                pseudo_move(mb, st, mode.spec_captures(), mode.spec_quiets(), f, t, ty),
        );
    }
}

/// Generates the pseudo-legal moves of the side to move.
pub fn generate_pseudo(board: &Board, list: &mut MoveList)
    requires
        board.layout_ok(),
    ensures
        generated(*board, GenMode::All, old(list)@, final(list)@),
{
    generate(board, list, GenMode::All);
}

/// Generates the pseudo-legal captures, capturing promotions and en passant
/// captures of the side to move: the quiescence-search move set. Quiet
/// promotions are left out.
pub fn generate_captures(board: &Board, list: &mut MoveList)
    requires
        board.layout_ok(),
    ensures
        generated(*board, GenMode::Captures, old(list)@, final(list)@),
{
    generate(board, list, GenMode::Captures);
}

/// Generates everything `generate_captures` does not, so appending this to a
/// capture list yields exactly `generate_pseudo`'s moves.
pub fn generate_quiets(board: &Board, list: &mut MoveList)
    requires
        board.layout_ok(),
    ensures
        generated(*board, GenMode::Quiets, old(list)@, final(list)@),
{
    generate(board, list, GenMode::Quiets);
}

} // verus!
