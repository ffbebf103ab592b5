//! The value the search computes when nothing is pruned: plain minimax over
//! the legal moves, with the same draws, leaves and terminal scores as the
//! search itself.
use vstd::prelude::*;
use crate::board::{Board, Move, MoveType, Piece, State, Undo};
use crate::board::board::made_at;
use crate::board::moves::{lemma_type_code_roundtrip, type_code, type_of_code};
use crate::eval::position::{evaluation, pawns_placed};
use crate::movegen::legal::{legal_move, playable_at};
use crate::search::DRAW;
use crate::search::MATE;
use crate::search::tree::{FIFTY_MOVE_PLIES, MAX_QPLY, checked, see_value};
use crate::board::moves::type_is_promotion;
use crate::movegen::gen::pseudo_move;

verus! {

/// The position is drawn by the fifty-move rule or by repetition, for the
/// state `st` and the history `h`.
pub open spec fn drawn_at(st: State, h: Seq<Undo>) -> bool {
    ||| st.spec_halfmove() >= FIFTY_MOVE_PLIES
    ||| exists|d: int|
        4 <= d <= st.spec_halfmove() && d <= h.len() && d % 2 == 0
            && #[trigger] h[h.len() - d].spec_state().spec_zobrist() == st.spec_zobrist()
}

/// The triple numbered `k`: origin, destination and type code packed as
/// `origin * 1024 + destination * 16 + code`.
pub open spec fn triple(k: int) -> (int, int, MoveType) {
    (k / 1024, (k / 16) % 64, type_of_code(k % 16))
}

/// The move with origin `f`, destination `t` and type `ty`.
pub open spec fn move_of(f: int, t: int, ty: MoveType) -> Move {
    choose|m: Move| m.from_idx() == f && m.to_idx() == t && m.spec_type() == ty
}

/// The board reached by making `mv` on the pieces `mb`, state `st` and
/// history `h`.
pub open spec fn child_of(mb: Seq<Option<Piece>>, st: State, h: Seq<Undo>, mv: Move) -> Board {
    choose|c: Board| made_at(mb, st, h, mv, c)
}

/// The minimax value of the position `(mb, st, h)` searched `depth` plies
/// deep, `ply` plies from the root, for the side to move: a draw by the
/// fifty-move rule or repetition below the root, a draw where the search
/// cannot work, at the horizon the quiescence value where `quiesce` asks
/// for it and the static evaluation otherwise, mate or stalemate without a
/// legal move, and otherwise the best of the legal replies.
pub open spec fn minimax(mb: Seq<Option<Piece>>, st: State, h: Seq<Undo>, depth: nat, ply: int, quiesce: bool) -> int
    decreases depth, 65537int,
{
    if ply > 0 && drawn_at(st, h) {
        DRAW as int
    } else if !(playable_at(mb, st) && pawns_placed(mb)) {
        DRAW as int
    } else if depth == 0 {
        if quiesce {
            quiescence(mb, st, h, 0, ply)
        } else {
            evaluation(mb, st.spec_side())
        }
    } else {
        match best_reply(mb, st, h, depth, ply, 0, quiesce) {
            Some(v) => v,
            None => if checked(mb, st.spec_side()) {
                -MATE + ply
            } else {
                DRAW as int
            },
        }
    }
}

/// The best value, for the side to move, of the legal moves among the
/// triples numbered `k` on, or `None` without one.
pub open spec fn best_reply(
    mb: Seq<Option<Piece>>,
    st: State,
    h: Seq<Undo>,
    depth: nat,
    ply: int,
    k: nat,
    quiesce: bool,
) -> Option<int>
    decreases depth, 65536 - k,
{
    if k >= 65536 || depth == 0 {
        None
    } else {
        let (f, t, ty) = triple(k as int);
        let rest = best_reply(mb, st, h, depth, ply, (k + 1) as nat, quiesce);
        if legal_move(mb, st, f, t, ty) {
            let v = reply_value(mb, st, h, depth, ply, f, t, ty, quiesce);
            match rest {
                Some(r) => Some(if v > r {
                    v
                } else {
                    r
                }),
                None => Some(v),
            }
        } else {
            rest
        }
    }
}

/// The value, for the side to move, of the move `(f, t, ty)`: the child's
/// minimax value one ply shallower, negated.
pub open spec fn reply_value(
    mb: Seq<Option<Piece>>,
    st: State,
    h: Seq<Undo>,
    depth: nat,
    ply: int,
    f: int,
    t: int,
    ty: MoveType,
    quiesce: bool,
) -> int
    decreases depth, 0int,
{
    if depth == 0 {
        0
    } else {
        let c = child_of(mb, st, h, move_of(f, t, ty));
        -minimax(c.spec_mailbox(), c.spec_state(), c.spec_history(), (depth - 1) as nat, ply + 1, quiesce)
    }
}

/// The minimax value of `b`.
pub closed spec fn value_of(b: Board, depth: nat, ply: int, quiesce: bool) -> int {
    minimax(b.spec_mailbox(), b.spec_state(), b.spec_history(), depth, ply, quiesce)
}

/// The minimax value of `b` is that of its pieces, state and history.
pub proof fn lemma_value_of(b: Board, depth: nat, ply: int, quiesce: bool)
    ensures
        value_of(b, depth, ply, quiesce) == minimax(b.spec_mailbox(), b.spec_state(), b.spec_history(), depth, ply, quiesce),
{
}

/// The value of the move `m` on `b`, for the side to move there.
pub open spec fn reply_of(b: Board, m: Move, depth: nat, ply: int, quiesce: bool) -> int {
    reply_value(
        b.spec_mailbox(),
        b.spec_state(),
        b.spec_history(),
        depth,
        ply,
        m.from_idx(),
        m.to_idx(),
        m.spec_type(), quiesce,
    )
}

/// `m` is a legal move on `b`.
pub open spec fn legal_on(b: Board, m: Move) -> bool {
    legal_move(b.spec_mailbox(), b.spec_state(), m.from_idx(), m.to_idx(), m.spec_type())
}

/// What a fail-soft search of the window `(alpha, beta)` that returned `s`
/// tells of the true value `v`: at most `s` when `s` fails low, at least
/// `s` when it fails high, and exactly `s` inside the window.
pub open spec fn fail_soft(s: int, alpha: int, beta: int, v: int) -> bool {
    &&& s <= alpha ==> v <= s
    &&& s >= beta ==> v >= s
    &&& alpha < s < beta ==> v == s
}

/// The triple of a move lies in the numbering: its number gives it back.
pub proof fn lemma_index(f: int, t: int, ty: MoveType)
    requires
        0 <= f < 64,
        0 <= t < 64,
    ensures
        0 <= f * 1024 + t * 16 + type_code(ty) < 65536,
        triple(f * 1024 + t * 16 + type_code(ty)) == (f, t, ty),
{
    let c = type_code(ty) as int;
    lemma_type_code_roundtrip(ty, c);
    let k = f * 1024 + t * 16 + c;
    assert(k / 1024 == f && (k / 16) % 64 == t && k % 16 == c) by (nonlinear_arith)
        requires
            k == f * 1024 + t * 16 + c,
            0 <= f < 64,
            0 <= t < 64,
            0 <= c < 16,
    ;
}

/// The best reply from `k` on is attained by a legal triple there and
/// bounds every legal triple there.
pub proof fn lemma_best_reply(mb: Seq<Option<Piece>>, st: State, h: Seq<Undo>, depth: nat, ply: int, k: nat, quiesce: bool)
    requires
        depth > 0,
        k <= 65536,
    ensures
        best_reply(mb, st, h, depth, ply, k, quiesce) matches Some(v) ==> exists|j: int|
            k <= j < 65536 && #[trigger] legal_move(mb, st, triple(j).0, triple(j).1, triple(j).2)
                && reply_value(mb, st, h, depth, ply, triple(j).0, triple(j).1, triple(j).2, quiesce) == v,
        forall|j: int|
            k <= j < 65536 && #[trigger] legal_move(mb, st, triple(j).0, triple(j).1, triple(j).2) ==> {
                &&& best_reply(mb, st, h, depth, ply, k, quiesce) is Some
                &&& reply_value(mb, st, h, depth, ply, triple(j).0, triple(j).1, triple(j).2, quiesce)
                    <= best_reply(mb, st, h, depth, ply, k, quiesce)->0
            },
    decreases 65536 - k,
{
    if k < 65536 {
        lemma_best_reply(mb, st, h, depth, ply, (k + 1) as nat, quiesce);
    }
}

/// Where every legal move's value is at most `x`, so is the best reply.
pub proof fn lemma_reply_upper(mb: Seq<Option<Piece>>, st: State, h: Seq<Undo>, depth: nat, ply: int, x: int, quiesce: bool)
    requires
        depth > 0,
        forall|f: int, t: int, ty: MoveType|
            legal_move(mb, st, f, t, ty) ==> #[trigger] reply_value(mb, st, h, depth, ply, f, t, ty, quiesce) <= x,
    ensures
        best_reply(mb, st, h, depth, ply, 0, quiesce) matches Some(v) ==> v <= x,
{
    lemma_best_reply(mb, st, h, depth, ply, 0, quiesce);
    if let Some(v) = best_reply(mb, st, h, depth, ply, 0, quiesce) {
        let j = choose|j: int|
            0 <= j < 65536 && #[trigger] legal_move(mb, st, triple(j).0, triple(j).1, triple(j).2)
                && reply_value(mb, st, h, depth, ply, triple(j).0, triple(j).1, triple(j).2, quiesce) == v;
        assert(reply_value(mb, st, h, depth, ply, triple(j).0, triple(j).1, triple(j).2, quiesce) <= x);
    }
}

/// Without a legal move there is no best reply.
pub proof fn lemma_no_reply(mb: Seq<Option<Piece>>, st: State, h: Seq<Undo>, depth: nat, ply: int, quiesce: bool)
    requires
        depth > 0,
        forall|f: int, t: int, ty: MoveType| !#[trigger] legal_move(mb, st, f, t, ty),
    ensures
        best_reply(mb, st, h, depth, ply, 0, quiesce) is None,
{
    lemma_best_reply(mb, st, h, depth, ply, 0, quiesce);
    if let Some(v) = best_reply(mb, st, h, depth, ply, 0, quiesce) {
        let j = choose|j: int|
            0 <= j < 65536 && #[trigger] legal_move(mb, st, triple(j).0, triple(j).1, triple(j).2)
                && reply_value(mb, st, h, depth, ply, triple(j).0, triple(j).1, triple(j).2, quiesce) == v;
        assert(legal_move(mb, st, triple(j).0, triple(j).1, triple(j).2));
    }
}

/// A legal move's value is at most the best reply, which exists.
pub proof fn lemma_reply_lower(b: Board, m: Move, depth: nat, ply: int, quiesce: bool)
    requires
        depth > 0,
        legal_on(b, m),
    ensures
        best_reply(b.spec_mailbox(), b.spec_state(), b.spec_history(), depth, ply, 0, quiesce) is Some,
        reply_of(b, m, depth, ply, quiesce) <= best_reply(
            b.spec_mailbox(),
            b.spec_state(),
            b.spec_history(),
            depth,
            ply,
            0, quiesce,
        )->0,
{
    let mb = b.spec_mailbox();
    let st = b.spec_state();
    let h = b.spec_history();
    assert(0 <= m.from_idx() < 64 && 0 <= m.to_idx() < 64);
    lemma_index(m.from_idx(), m.to_idx(), m.spec_type());
    lemma_best_reply(mb, st, h, depth, ply, 0, quiesce);
    let j = m.from_idx() * 1024 + m.to_idx() * 16 + type_code(m.spec_type());
    assert(legal_move(mb, st, triple(j).0, triple(j).1, triple(j).2));
}

/// The value of a move is the negated minimax value of the board that
/// making it produces.
pub proof fn lemma_child_value(b: Board, mv: Move, mid: Board, depth: nat, ply: int, quiesce: bool)
    requires
        depth > 0,
        crate::board::board::made(b, mv, mid),
    ensures
        reply_of(b, mv, depth, ply, quiesce) == -value_of(mid, (depth - 1) as nat, ply + 1, quiesce),
{
    let mb = b.spec_mailbox();
    let st = b.spec_state();
    let h = b.spec_history();
    let m2 = move_of(mv.from_idx(), mv.to_idx(), mv.spec_type());
    mv.lemma_fields(m2);
    let c = child_of(mb, st, h, mv);
    crate::board::board::lemma_made_unique(b, mv, mid, c);
}

/// The moves quiescence searches from the position `(mb, st)`: every legal
/// move when in check, and otherwise the legal captures that promote or do
/// not lose material by static exchange.
pub open spec fn quiescence_move(mb: Seq<Option<Piece>>, st: State, f: int, t: int, ty: MoveType) -> bool {
    &&& legal_move(mb, st, f, t, ty)
    &&& !checked(mb, st.spec_side()) ==> {
        &&& pseudo_move(mb, st, true, false, f, t, ty)
        &&& type_is_promotion(ty) || see_value(mb, st.spec_side(), move_of(f, t, ty)) >= 0
    }
}

/// The quiescence value of the position `(mb, st, h)`, `qply` plies past
/// the horizon and `ply` from the root, for the side to move: a draw where
/// the search cannot work, the static evaluation at the ply ceiling, and
/// otherwise the best of the quiescence moves, which out of check compete
/// with standing pat on the static evaluation and in check without a
/// legal move give mate.
pub open spec fn quiescence(mb: Seq<Option<Piece>>, st: State, h: Seq<Undo>, qply: nat, ply: int) -> int
    decreases MAX_QPLY - qply, 65537int,
{
    if !(playable_at(mb, st) && pawns_placed(mb)) {
        DRAW as int
    } else if qply >= MAX_QPLY {
        evaluation(mb, st.spec_side())
    } else if checked(mb, st.spec_side()) {
        match best_capture(mb, st, h, qply, ply, 0) {
            Some(v) => v,
            None => -MATE + ply,
        }
    } else {
        let e = evaluation(mb, st.spec_side());
        match best_capture(mb, st, h, qply, ply, 0) {
            Some(v) => if v > e {
                v
            } else {
                e
            },
            None => e,
        }
    }
}

/// The best value, for the side to move, of the quiescence moves among the
/// triples numbered `k` on, or `None` without one.
pub open spec fn best_capture(mb: Seq<Option<Piece>>, st: State, h: Seq<Undo>, qply: nat, ply: int, k: nat) -> Option<
    int,
>
    decreases MAX_QPLY - qply, 65536 - k,
{
    if k >= 65536 || qply >= MAX_QPLY {
        None
    } else {
        let (f, t, ty) = triple(k as int);
        let rest = best_capture(mb, st, h, qply, ply, (k + 1) as nat);
        if quiescence_move(mb, st, f, t, ty) {
            let v = capture_value(mb, st, h, qply, ply, f, t, ty);
            match rest {
                Some(r) => Some(if v > r {
                    v
                } else {
                    r
                }),
                None => Some(v),
            }
        } else {
            rest
        }
    }
}

/// The value, for the side to move, of the quiescence move `(f, t, ty)`:
/// the child's quiescence value one ply further, negated.
pub open spec fn capture_value(
    mb: Seq<Option<Piece>>,
    st: State,
    h: Seq<Undo>,
    qply: nat,
    ply: int,
    f: int,
    t: int,
    ty: MoveType,
) -> int
    decreases MAX_QPLY - qply, 0int,
{
    if qply >= MAX_QPLY {
        0
    } else {
        let c = child_of(mb, st, h, move_of(f, t, ty));
        -quiescence(c.spec_mailbox(), c.spec_state(), c.spec_history(), qply + 1, ply + 1)
    }
}

/// Two boards with the same pieces, state and history have one value.
pub proof fn lemma_value_same(x: Board, y: Board, depth: nat, ply: int, quiesce: bool)
    requires
        x.spec_mailbox() == y.spec_mailbox(),
        x.spec_state() == y.spec_state(),
        x.spec_history() == y.spec_history(),
    ensures
        value_of(x, depth, ply, quiesce) == value_of(y, depth, ply, quiesce),
{
}

/// The quiescence value of `b`.
pub closed spec fn quiescence_of(b: Board, qply: nat, ply: int) -> int {
    quiescence(b.spec_mailbox(), b.spec_state(), b.spec_history(), qply, ply)
}

/// The quiescence value of `b` is that of its pieces, state and history.
pub proof fn lemma_quiescence_of(b: Board, qply: nat, ply: int)
    ensures
        quiescence_of(b, qply, ply) == quiescence(b.spec_mailbox(), b.spec_state(), b.spec_history(), qply, ply),
{
}

/// The quiescence value of the move `m` on `b`, for the side to move there.
pub open spec fn capture_of(b: Board, m: Move, qply: nat, ply: int) -> int {
    capture_value(
        b.spec_mailbox(),
        b.spec_state(),
        b.spec_history(),
        qply,
        ply,
        m.from_idx(),
        m.to_idx(),
        m.spec_type(),
    )
}

/// `m` is a quiescence move on `b`.
pub open spec fn searched_in_quiescence(b: Board, m: Move) -> bool {
    quiescence_move(b.spec_mailbox(), b.spec_state(), m.from_idx(), m.to_idx(), m.spec_type())
}

/// The best quiescence move from `k` on is attained by a quiescence move
/// there and bounds every one there.
pub proof fn lemma_best_capture(mb: Seq<Option<Piece>>, st: State, h: Seq<Undo>, qply: nat, ply: int, k: nat)
    requires
        qply < MAX_QPLY,
        k <= 65536,
    ensures
        best_capture(mb, st, h, qply, ply, k) matches Some(v) ==> exists|j: int|
            k <= j < 65536 && #[trigger] quiescence_move(mb, st, triple(j).0, triple(j).1, triple(j).2)
                && capture_value(mb, st, h, qply, ply, triple(j).0, triple(j).1, triple(j).2) == v,
        forall|j: int|
            k <= j < 65536 && #[trigger] quiescence_move(mb, st, triple(j).0, triple(j).1, triple(j).2) ==> {
                &&& best_capture(mb, st, h, qply, ply, k) is Some
                &&& capture_value(mb, st, h, qply, ply, triple(j).0, triple(j).1, triple(j).2)
                    <= best_capture(mb, st, h, qply, ply, k)->0
            },
    decreases 65536 - k,
{
    if k < 65536 {
        lemma_best_capture(mb, st, h, qply, ply, (k + 1) as nat);
    }
}

/// Where every quiescence move's value is at most `x`, so is the best one;
/// without a quiescence move there is no best one.
pub proof fn lemma_capture_upper(mb: Seq<Option<Piece>>, st: State, h: Seq<Undo>, qply: nat, ply: int, x: int)
    requires
        qply < MAX_QPLY,
        forall|f: int, t: int, ty: MoveType|
            quiescence_move(mb, st, f, t, ty) ==> #[trigger] capture_value(mb, st, h, qply, ply, f, t, ty) <= x,
    ensures
        best_capture(mb, st, h, qply, ply, 0) matches Some(v) ==> v <= x,
{
    lemma_best_capture(mb, st, h, qply, ply, 0);
    if let Some(v) = best_capture(mb, st, h, qply, ply, 0) {
        let j = choose|j: int|
            0 <= j < 65536 && #[trigger] quiescence_move(mb, st, triple(j).0, triple(j).1, triple(j).2)
                && capture_value(mb, st, h, qply, ply, triple(j).0, triple(j).1, triple(j).2) == v;
        assert(capture_value(mb, st, h, qply, ply, triple(j).0, triple(j).1, triple(j).2) <= x);
    }
}

/// A quiescence move's value is at most the best one, which exists.
pub proof fn lemma_capture_lower(b: Board, m: Move, qply: nat, ply: int)
    requires
        qply < MAX_QPLY,
        searched_in_quiescence(b, m),
    ensures
        best_capture(b.spec_mailbox(), b.spec_state(), b.spec_history(), qply, ply, 0) is Some,
        capture_of(b, m, qply, ply) <= best_capture(
            b.spec_mailbox(),
            b.spec_state(),
            b.spec_history(),
            qply,
            ply,
            0,
        )->0,
{
    let mb = b.spec_mailbox();
    let st = b.spec_state();
    let h = b.spec_history();
    assert(0 <= m.from_idx() < 64 && 0 <= m.to_idx() < 64);
    lemma_index(m.from_idx(), m.to_idx(), m.spec_type());
    lemma_best_capture(mb, st, h, qply, ply, 0);
    let j = m.from_idx() * 1024 + m.to_idx() * 16 + type_code(m.spec_type());
    assert(quiescence_move(mb, st, triple(j).0, triple(j).1, triple(j).2));
}

/// The quiescence value of a move is the negated quiescence value of the
/// board that making it produces, and the move is named by its fields.
pub proof fn lemma_capture_child(b: Board, mv: Move, mid: Board, qply: nat, ply: int)
    requires
        qply < MAX_QPLY,
        crate::board::board::made(b, mv, mid),
    ensures
        capture_of(b, mv, qply, ply) == -quiescence_of(mid, qply + 1, ply + 1),
        move_of(mv.from_idx(), mv.to_idx(), mv.spec_type()) == mv,
{
    let mb = b.spec_mailbox();
    let st = b.spec_state();
    let h = b.spec_history();
    let m2 = move_of(mv.from_idx(), mv.to_idx(), mv.spec_type());
    mv.lemma_fields(m2);
    let c = child_of(mb, st, h, mv);
    crate::board::board::lemma_made_unique(b, mv, mid, c);
}

/// A move is named by its fields.
pub proof fn lemma_move_of(mv: Move)
    ensures
        move_of(mv.from_idx(), mv.to_idx(), mv.spec_type()) == mv,
{
    let m2 = move_of(mv.from_idx(), mv.to_idx(), mv.spec_type());
    mv.lemma_fields(m2);
}

} // verus!
