use vstd::prelude::*;
use vstd::wrapping::u64_specs::wrapping_add;
use crate::bits::{lemma_xor, lemma_xor_term};
use crate::board::moves::{type_is_capture, type_is_promotion, type_promoted_piece};
use crate::board::piece::{color_index, kind_index, other};
use crate::board::{Bitboard, CastlingRights, Color, Move, MoveType, Piece, PieceType, Square, State, Undo};
use crate::lattice_board::zobrist::{splitmix_mix, GAMMA};

verus! {

broadcast use vstd::array::group_array_axioms;

/// The key mixer: one SplitMix64 step applied to `x`.
pub open spec fn mix(x: u64) -> u64 {
    splitmix_mix(wrapping_add(x, GAMMA))
}

/// The Zobrist key of `piece` on square `s`.
pub open spec fn piece_key(piece: Piece, s: int) -> u64 {
    mix(((6 * color_index(piece.spec_color()) + kind_index(piece.spec_kind())) * 64 + s) as u64)
}

/// The Zobrist key of a castling-rights bitset.
pub open spec fn castle_key(bits: u8) -> u64 {
    mix((768 + bits) as u64)
}

/// The Zobrist key of an en passant target on square `s` (by its file).
pub open spec fn ep_key(s: int) -> u64 {
    mix((784 + s % 8) as u64)
}

/// The Zobrist key of Black to move.
pub open spec fn side_key() -> u64 {
    mix(792)
}

/// `z` with the keys of the pieces on the first `n` squares XORed in.
pub open spec fn hash_pieces(mb: Seq<Option<Piece>>, n: int, z: u64) -> u64
    decreases n,
{
    if n <= 0 {
        z
    } else {
        let z1 = hash_pieces(mb, n - 1, z);
        match mb[n - 1] {
            Some(p) => z1 ^ piece_key(p, n - 1),
            None => z1,
        }
    }
}

/// The side-to-move term of a key: the side key when Black is to move.
pub open spec fn side_part(c: Color) -> u64 {
    if c == Color::Black {
        side_key()
    } else {
        0
    }
}

/// The en passant term of a key.
pub open spec fn ep_part(ep: Option<Square>) -> u64 {
    match ep {
        Some(s) => ep_key(s.idx()),
        None => 0,
    }
}

/// The key of the state alone: castling rights, side to move, en passant.
pub open spec fn state_key(st: State) -> u64 {
    (castle_key(st.spec_castling().bits()) ^ side_part(st.spec_side())) ^ ep_part(st.spec_ep())
}

/// The Zobrist key of a position: the state's key with every piece's key
/// XORed in, square by square.
pub open spec fn position_key(mb: Seq<Option<Piece>>, st: State) -> u64 {
    hash_pieces(mb, 64, state_key(st))
}

/// XORing a key into the start value XORs it into the result.
pub proof fn lemma_hash_shift(mb: Seq<Option<Piece>>, n: int, z: u64, k: u64)
    ensures
        hash_pieces(mb, n, z ^ k) == hash_pieces(mb, n, z) ^ k,
    decreases n,
{
    if n > 0 {
        lemma_hash_shift(mb, n - 1, z, k);
        let z1 = hash_pieces(mb, n - 1, z);
        match mb[n - 1] {
            Some(p) => {
                lemma_xor(z1, k, piece_key(p, n - 1));
                lemma_xor(z1, piece_key(p, n - 1), k);
                lemma_xor(k, piece_key(p, n - 1), 0);
            },
            None => {},
        }
    }
}

/// Changing the state changes a position's key by the XOR of the two
/// states' keys.
pub proof fn lemma_rekey(mb: Seq<Option<Piece>>, st1: State, st2: State)
    ensures
        position_key(mb, st2) == position_key(mb, st1) ^ (state_key(st1) ^ state_key(st2)),
{
    let (a, b) = (state_key(st1), state_key(st2));
    lemma_hash_shift(mb, 64, a, a ^ b);
    lemma_xor(a, a, b);
    lemma_xor(b, 0, 0);
    lemma_xor(0, b, 0);
}

/// Putting a piece on an empty square (or taking it off) XORs its key into
/// the position's key.
pub proof fn lemma_hash_update(mb: Seq<Option<Piece>>, n: int, z: u64, s: int, p: Piece)
    requires
        0 <= s < mb.len(),
        n <= mb.len(),
        mb[s] is None,
    ensures
        hash_pieces(mb.update(s, Some(p)), n, z) == if s < n {
            hash_pieces(mb, n, z) ^ piece_key(p, s)
        } else {
            hash_pieces(mb, n, z)
        },
    decreases n,
{
    if n > 0 {
        lemma_hash_update(mb, n - 1, z, s, p);
        let mb2 = mb.update(s, Some(p));
        let a = hash_pieces(mb, n - 1, z);
        if s < n - 1 {
            assert(mb2[n - 1] == mb[n - 1]);
            match mb[n - 1] {
                Some(q) => {
                    lemma_xor(a, piece_key(p, s), piece_key(q, n - 1));
                    lemma_xor(a, piece_key(q, n - 1), piece_key(p, s));
                    lemma_xor(piece_key(p, s), piece_key(q, n - 1), 0);
                },
                None => {},
            }
        } else if s == n - 1 {
            assert(mb2[n - 1] == Some(p));
        } else {
            assert(mb2[n - 1] == mb[n - 1]);
        }
    }
}

/// The rights that survive a piece leaving or landing on square `i`.
pub open spec fn castle_mask(i: int) -> u8 {
    if i == 0 {
        13
    } else if i == 4 {
        12
    } else if i == 7 {
        14
    } else if i == 56 {
        7
    } else if i == 60 {
        3
    } else if i == 63 {
        11
    } else {
        15
    }
}

/// The castling rook's `(from, to)` for a king landing on `king_to`.
pub open spec fn rook_squares(king_to: int) -> (int, int) {
    if king_to == 6 {
        (7, 5)
    } else if king_to == 2 {
        (0, 3)
    } else if king_to == 62 {
        (63, 61)
    } else {
        (56, 59)
    }
}

/// Whether `i` is a square a castling king lands on.
pub open spec fn is_castle_target(i: int) -> bool {
    i == 2 || i == 6 || i == 58 || i == 62
}



/// The square of the pawn that an en passant capture by `us` onto `to`
/// removes: the one beside the capturer.
pub open spec fn ep_victim(us: Color, to: int) -> int {
    if us == Color::White {
        to - 8
    } else {
        to + 8
    }
}

/// Whether a move type is one of the two castles.
pub open spec fn is_castle_type(t: MoveType) -> bool {
    t == MoveType::KingCastle || t == MoveType::QueenCastle
}

/// The square whose piece `mv` captures on `mb`.
pub open spec fn capture_square(mb: Seq<Option<Piece>>, mv: Move) -> int {
    if mv.spec_type() == MoveType::EnPassant {
        ep_victim(mb[mv.from_idx()]->0.spec_color(), mv.to_idx())
    } else {
        mv.to_idx()
    }
}

/// The piece `mv` captures on `mb`, if any.
pub open spec fn captured_by(mb: Seq<Option<Piece>>, mv: Move) -> Option<Piece> {
    if type_is_capture(mv.spec_type()) {
        mb[capture_square(mb, mv)]
    } else {
        None
    }
}

/// The piece that lands on the destination: the mover, or its promotion.
pub open spec fn placed_by(mb: Seq<Option<Piece>>, mv: Move) -> Piece {
    let moving = mb[mv.from_idx()]->0;
    match type_promoted_piece(mv.spec_type()) {
        Some(k) => Piece::of(moving.spec_color(), k),
        None => moving,
    }
}

/// The mailbox once the mover has left its square and the captured piece its
/// square.
pub open spec fn lifted_mailbox(mb: Seq<Option<Piece>>, mv: Move) -> Seq<Option<Piece>> {
    let m1 = mb.update(mv.from_idx(), None);
    match captured_by(mb, mv) {
        Some(_) => m1.update(capture_square(mb, mv), None),
        None => m1,
    }
}

/// The mailbox once the mover (or its promotion) has landed.
pub open spec fn placed_mailbox(mb: Seq<Option<Piece>>, mv: Move) -> Seq<Option<Piece>> {
    lifted_mailbox(mb, mv).update(mv.to_idx(), Some(placed_by(mb, mv)))
}

/// The mailbox after `mv` is made on `mb`.
pub open spec fn make_mailbox(mb: Seq<Option<Piece>>, mv: Move) -> Seq<Option<Piece>> {
    let m = placed_mailbox(mb, mv);
    if is_castle_type(mv.spec_type()) {
        let (rf, rt) = rook_squares(mv.to_idx());
        m.update(rf, None).update(rt, m[rf])
    } else {
        m
    }
}

/// Whether `mv` can be made on `mb`: its origin holds a piece, its
/// destination is empty unless the move takes the piece there, an en passant
/// victim lies on the board apart from the origin, and a castle lands on a
/// castling square and finds a rook to move onto an empty square.
pub open spec fn can_make(mb: Seq<Option<Piece>>, mv: Move) -> bool {
    let cap = capture_square(mb, mv);
    let captured = captured_by(mb, mv);
    let m = placed_mailbox(mb, mv);
    let (rf, rt) = rook_squares(mv.to_idx());
    &&& mb.len() == 64
    &&& mb[mv.from_idx()] is Some
    &&& mv.spec_type() == MoveType::EnPassant ==> 0 <= cap < 64
    &&& captured is Some ==> cap != mv.from_idx()
    &&& mb[mv.to_idx()] is None || (captured is Some && cap == mv.to_idx())
    &&& is_castle_type(mv.spec_type()) ==> {
        &&& is_castle_target(mv.to_idx())
        &&& m[rf] is Some
        &&& m.update(rf, None)[rt] is None
    }
}

/// `after` is `b` with `mv` made: the pieces moved as [`make_mailbox`] says,
/// the state before the move and the captured piece pushed on the history,
/// and the state advanced.
pub open spec fn made(b: Board, mv: Move, after: Board) -> bool {
    made_at(b.spec_mailbox(), b.spec_state(), b.spec_history(), mv, after)
}

/// [`made`], for the board whose pieces are `mb`, whose state is `st` and
/// whose history is `h`.
pub open spec fn made_at(mb: Seq<Option<Piece>>, st: State, h: Seq<Undo>, mv: Move, after: Board) -> bool {
    let st2 = after.spec_state();
    let moving = mb[mv.from_idx()]->0;
    let captured = captured_by(mb, mv);
    &&& after.wf()
    &&& after.spec_mailbox() == make_mailbox(mb, mv)
    &&& after.spec_history() == h.push(Undo::of(st, captured))
    &&& st2.spec_side() == other(st.spec_side())
    &&& st2.spec_castling().bits() == st.spec_castling().bits() & (castle_mask(mv.from_idx())
        & castle_mask(mv.to_idx()))
    &&& st2.spec_ep() == (if mv.spec_type() == MoveType::DoublePawnPush {
        Some(Square::at((mv.from_idx() + mv.to_idx()) / 2))
    } else {
        None
    })
    &&& st2.spec_halfmove() == (if moving.spec_kind() == PieceType::Pawn || captured is Some {
        0
    } else {
        st.spec_halfmove().saturating_add(1)
    })
    &&& st2.spec_fullmove() == (if moving.spec_color() == Color::Black {
        st.spec_fullmove().saturating_add(1)
    } else {
        st.spec_fullmove()
    })
}

/// A move made on one board leads to one position: two boards it can
/// lead to agree in pieces, state and history.
pub proof fn lemma_made_unique(b: Board, mv: Move, x: Board, y: Board)
    requires
        made(b, mv, x),
        made(b, mv, y),
    ensures
        x.spec_mailbox() == y.spec_mailbox(),
        x.spec_state() == y.spec_state(),
        x.spec_history() == y.spec_history(),
{
    let sx = x.spec_state();
    let sy = y.spec_state();
    sx.spec_castling().lemma_bits(sx.spec_castling().bits());
    sy.spec_castling().lemma_bits(sy.spec_castling().bits());
    assert(sx.spec_castling() == sy.spec_castling());
    x.lemma_key(y);
    sx.lemma_of(sx.spec_side(), sx.spec_castling(), sx.spec_ep(), sx.spec_halfmove(), sx.spec_fullmove(), sx.spec_zobrist());
    sy.lemma_of(sy.spec_side(), sy.spec_castling(), sy.spec_ep(), sy.spec_halfmove(), sy.spec_fullmove(), sy.spec_zobrist());
}

/// The piece that goes back to the origin when `mv` is taken back on `mb`
/// with the saved `undo`: a pawn of the side that moved after a promotion.
pub open spec fn returning_piece(mb: Seq<Option<Piece>>, mv: Move, undo: Undo) -> Piece {
    if type_is_promotion(mv.spec_type()) {
        Piece::of(undo.spec_state().spec_side(), PieceType::Pawn)
    } else {
        mb[mv.to_idx()]->0
    }
}

/// The mailbox once the mover is back on its origin and a castling rook in
/// its corner.
pub open spec fn returned_mailbox(mb: Seq<Option<Piece>>, mv: Move, undo: Undo) -> Seq<
    Option<Piece>,
> {
    let m = mb.update(mv.to_idx(), None).update(mv.from_idx(), Some(returning_piece(mb, mv, undo)));
    if is_castle_type(mv.spec_type()) {
        let (rf, rt) = rook_squares(mv.to_idx());
        m.update(rt, None).update(rf, m[rt])
    } else {
        m
    }
}

/// The square a captured piece goes back to.
pub open spec fn restore_square(mv: Move, undo: Undo) -> int {
    if mv.spec_type() == MoveType::EnPassant {
        ep_victim(undo.spec_state().spec_side(), mv.to_idx())
    } else {
        mv.to_idx()
    }
}

/// The mailbox after `mv` is taken back on `mb` with the saved `undo`.
pub open spec fn unmake_mailbox(mb: Seq<Option<Piece>>, mv: Move, undo: Undo) -> Seq<
    Option<Piece>,
> {
    let m = returned_mailbox(mb, mv, undo);
    match undo.spec_captured() {
        Some(p) => m.update(restore_square(mv, undo), Some(p)),
        None => m,
    }
}

/// Whether `mv` can be taken back on `b`: a move was made, its destination
/// holds a piece, the origin is then empty, a castling rook is found and its
/// corner empty, and a captured piece's square lies on the board and is empty.
pub open spec fn can_unmake(b: Board, mv: Move) -> bool {
    let mb = b.spec_mailbox();
    let hist = b.spec_history();
    let undo = hist.last();
    let m = mb.update(mv.to_idx(), None).update(
        mv.from_idx(),
        Some(returning_piece(mb, mv, undo)),
    );
    let (rf, rt) = rook_squares(mv.to_idx());
    let sq = restore_square(mv, undo);
    &&& hist.len() > 0
    &&& mb[mv.to_idx()] is Some
    &&& mb.update(mv.to_idx(), None)[mv.from_idx()] is None
    &&& is_castle_type(mv.spec_type()) ==> {
        &&& is_castle_target(mv.to_idx())
        &&& m[rt] is Some
        &&& m.update(rt, None)[rf] is None
    }
    &&& undo.spec_captured() is Some ==> {
        &&& 0 <= sq < 64
        &&& returned_mailbox(mb, mv, undo)[sq] is None
    }
}

/// `after` is `b` with `mv` taken back: the pieces moved back as
/// [`unmake_mailbox`] says and the saved state restored and popped.
pub open spec fn unmade(b: Board, mv: Move, after: Board) -> bool {
    let undo = b.spec_history().last();
    &&& after.layout_ok()
    &&& after.spec_mailbox() == unmake_mailbox(b.spec_mailbox(), mv, undo)
    &&& after.spec_state() == undo.spec_state()
    &&& after.spec_history() == b.spec_history().drop_last()
}

/// Whether taking `mv` back on `mb` with side `us` to move finds what making
/// it changed: the move is played by `us` (as a pawn when it promotes) between
/// two different squares, and a castling king does not start on its rook's
/// destination.
pub open spec fn reversible(mb: Seq<Option<Piece>>, us: Color, mv: Move) -> bool {
    let moving = mb[mv.from_idx()]->0;
    &&& mv.from_idx() != mv.to_idx()
    &&& moving.spec_color() == us
    &&& type_is_promotion(mv.spec_type()) ==> moving == Piece::of(us, PieceType::Pawn)
    &&& is_castle_type(mv.spec_type()) ==> rook_squares(mv.to_idx()).1 != mv.from_idx()
}

/// Taking back a move restores the mailbox it was made on.
pub proof fn lemma_mailbox_round_trip(mb: Seq<Option<Piece>>, st: State, mv: Move)
    requires
        can_make(mb, mv),
        reversible(mb, st.spec_side(), mv),
    ensures
        ({
            let undo = Undo::of(st, captured_by(mb, mv));
            let mid = make_mailbox(mb, mv);
            &&& mid[mv.to_idx()] is Some
            &&& mid.update(mv.to_idx(), None)[mv.from_idx()] is None
            &&& unmake_mailbox(mid, mv, undo) == mb
        }),
{
    let undo = Undo::of(st, captured_by(mb, mv));
    undo.lemma_of(st, captured_by(mb, mv));
    let mid = make_mailbox(mb, mv);
    let moving = mb[mv.from_idx()]->0;
    moving.lemma_of(moving, st.spec_side(), PieceType::Pawn);
    if type_is_promotion(mv.spec_type()) {
        assert(type_promoted_piece(mv.spec_type()) is Some);
    }
    assert(unmake_mailbox(mid, mv, undo) =~= mb);
}

/// Making a move and then taking it back restores the board exactly: for a
/// move that can be made and is played by the side to move (see
/// [`reversible`]), the board after the move can take it back, and doing so
/// gives back the same bitboards, mailbox, state and history, with a key that
/// again matches the position.
/// `after` is `b` with the side to move passing: the pieces where they were,
/// the state before pushed on the history, the other side to move, no en
/// passant square, and the halfmove clock advanced.
pub open spec fn null_made(b: Board, after: Board) -> bool {
    let st = b.spec_state();
    let st2 = after.spec_state();
    &&& after.wf()
    &&& after.spec_mailbox() == b.spec_mailbox()
    &&& after.spec_history() == b.spec_history().push(Undo::of(st, None))
    &&& st2.spec_side() == other(st.spec_side())
    &&& st2.spec_castling() == st.spec_castling()
    &&& st2.spec_ep() is None
    &&& st2.spec_halfmove() == st.spec_halfmove().saturating_add(1)
    &&& st2.spec_fullmove() == st.spec_fullmove()
}

/// `after` is `b` with its last pass taken back: the pieces where they were,
/// and the saved state restored and popped.
pub open spec fn null_unmade(b: Board, after: Board) -> bool {
    &&& after.layout_ok()
    &&& after.spec_mailbox() == b.spec_mailbox()
    &&& after.spec_state() == b.spec_history().last().spec_state()
    &&& after.spec_history() == b.spec_history().drop_last()
}

/// Passing and then taking the pass back restores the board exactly.
pub proof fn lemma_null_round_trip(b: Board, mid: Board, after: Board)
    requires
        b.wf(),
        null_made(b, mid),
        null_unmade(mid, after),
    ensures
        Board::same_position(after, b),
        after.wf(),
{
    let undo = Undo::of(b.spec_state(), None);
    undo.lemma_of(b.spec_state(), None);
    assert(mid.spec_history().drop_last() =~= b.spec_history());
    Board::lemma_same_position(after, b);
}

/// The position on `b` occurred before: an even number of plies back, at
/// least four (the fewest in which moves can return to a position) and no
/// more than the halfmove clock, an earlier state has the same key.
pub open spec fn repeats(b: Board) -> bool {
    let h = b.spec_history();
    let st = b.spec_state();
    exists|d: int|
        4 <= d <= st.spec_halfmove() && d <= h.len() && d % 2 == 0 && #[trigger] h[h.len() - d].spec_state().spec_zobrist()
            == st.spec_zobrist()
}

pub proof fn lemma_make_unmake(b: Board, mv: Move, mid: Board, after: Board)
    requires
        b.wf(),
        can_make(b.spec_mailbox(), mv),
        reversible(b.spec_mailbox(), b.spec_state().spec_side(), mv),
        made(b, mv, mid),
    ensures
        can_unmake(mid, mv),
        unmade(mid, mv, after) ==> Board::same_position(after, b) && after.wf(),
{
    let mb = b.spec_mailbox();
    let st = b.spec_state();
    let undo = Undo::of(st, captured_by(mb, mv));
    undo.lemma_of(st, captured_by(mb, mv));
    lemma_mailbox_round_trip(mb, st, mv);
    assert(mid.spec_history().last() == undo);
    assert(mid.spec_history().drop_last() =~= b.spec_history());
    if unmade(mid, mv, after) {
        Board::lemma_same_position(after, b);
    }
}


/// The piece type on file `f` of a back rank at the start.
pub open spec fn back_rank_kind(f: int) -> PieceType {
    if f == 0 || f == 7 {
        PieceType::Rook
    } else if f == 1 || f == 6 {
        PieceType::Knight
    } else if f == 2 || f == 5 {
        PieceType::Bishop
    } else if f == 3 {
        PieceType::Queen
    } else {
        PieceType::King
    }
}

/// The piece on square `i` in the standard starting position.
pub open spec fn start_piece(i: int) -> Option<Piece> {
    let r = i / 8;
    if r == 0 {
        Some(Piece::of(Color::White, back_rank_kind(i % 8)))
    } else if r == 1 {
        Some(Piece::of(Color::White, PieceType::Pawn))
    } else if r == 6 {
        Some(Piece::of(Color::Black, PieceType::Pawn))
    } else if r == 7 {
        Some(Piece::of(Color::Black, back_rank_kind(i % 8)))
    } else {
        None
    }
}

/// The piece on square `i` in the standard starting position.
fn start_piece_exec(i: u8) -> (p: Option<Piece>)
    requires
        i < 64,
    ensures
        p == start_piece(i as int),
{
    let r = i / 8;
    let f = i % 8;
    let kind = if f == 0 || f == 7 {
        PieceType::Rook
    } else if f == 1 || f == 6 {
        PieceType::Knight
    } else if f == 2 || f == 5 {
        PieceType::Bishop
    } else if f == 3 {
        PieceType::Queen
    } else {
        PieceType::King
    };
    if r == 0 {
        Some(Piece::new(Color::White, kind))
    } else if r == 1 {
        Some(Piece::new(Color::White, PieceType::Pawn))
    } else if r == 6 {
        Some(Piece::new(Color::Black, PieceType::Pawn))
    } else if r == 7 {
        Some(Piece::new(Color::Black, kind))
    } else {
        None
    }
}

/// The key mixer: one SplitMix64 step applied to `x`.
fn mix_exec(x: u64) -> (r: u64)
    ensures
        r == mix(x),
{
    let mut state = x;
    crate::lattice_board::zobrist::next(&mut state)
}

/// The Zobrist key of `piece` on `square`.
fn piece_key_exec(piece: Piece, square: Square) -> (k: u64)
    ensures
        k == piece_key(piece, square.idx()),
{
    let dense = (piece.color().index() as u64) * 6 + piece.piece_type().index() as u64;
    mix_exec(dense * 64 + square.index() as u64)
}

/// The Zobrist key of a castling-rights bitset.
fn castle_key_exec(rights: CastlingRights) -> (k: u64)
    ensures
        k == castle_key(rights.bits()),
{
    mix_exec(768 + rights.as_u8() as u64)
}

/// The Zobrist key of an en passant target.
fn ep_key_exec(square: Square) -> (k: u64)
    ensures
        k == ep_key(square.idx()),
{
    mix_exec(784 + square.file() as u64)
}

/// The Zobrist key of Black to move.
fn side_key_exec() -> (k: u64)
    ensures
        k == side_key(),
{
    mix_exec(792)
}

/// The castling rights that survive a piece leaving or landing on `i`.
fn castle_mask_exec(i: u8) -> (m: u8)
    ensures
        m == castle_mask(i as int),
{
    match i {
        0 => 13,
        4 => 12,
        7 => 14,
        56 => 7,
        60 => 3,
        63 => 11,
        _ => 15,
    }
}

/// The castling rook's `(from, to)` for a king landing on `king_to`.
fn castle_rook_squares(king_to: Square) -> (r: (Square, Square))
    requires
        is_castle_target(king_to.idx()),
    ensures
        (r.0.idx(), r.1.idx()) == rook_squares(king_to.idx()),
{
    match king_to.index() {
        6 => (Square::new_unchecked(7), Square::new_unchecked(5)),
        2 => (Square::new_unchecked(0), Square::new_unchecked(3)),
        62 => (Square::new_unchecked(63), Square::new_unchecked(61)),
        _ => (Square::new_unchecked(56), Square::new_unchecked(59)),
    }
}

/// A chess position with synchronized bitboards and mailbox storage.
#[derive(Debug, Clone, PartialEq, Eq)]
pub struct Board {
    pieces: [Bitboard; 6],
    colors: [Bitboard; 2],
    occupied: Bitboard,
    mailbox: [Option<Piece>; 64],
    state: State,
    history: Vec<Undo>,
}

impl Board {
    /// The piece on each square.
    pub closed spec fn spec_mailbox(self) -> Seq<Option<Piece>> {
        self.mailbox@
    }

    /// The mailbox covers the 64 squares.
    pub proof fn lemma_mailbox_len(self)
        ensures
            self.spec_mailbox().len() == 64,
    {
    }

    /// The game state.
    pub closed spec fn spec_state(self) -> State {
        self.state
    }

    /// The saved states of the moves made so far, oldest first.
    pub closed spec fn spec_history(self) -> Seq<Undo> {
        self.history@
    }

    /// The bitboards and the mailbox describe the same placement.
    #[verifier::opaque]
    pub closed spec fn layout_ok(self) -> bool {
        &&& forall|t: int, i: int|
            0 <= t < 6 ==> (#[trigger] self.pieces@[t]@.contains(i) <==> (0 <= i < 64
                && self.mailbox@[i] is Some && kind_index(self.mailbox@[i]->0.spec_kind()) == t))
        &&& forall|c: int, i: int|
            0 <= c < 2 ==> (#[trigger] self.colors@[c]@.contains(i) <==> (0 <= i < 64
                && self.mailbox@[i] is Some && color_index(self.mailbox@[i]->0.spec_color())
                == c))
        &&& forall|i: int|
            #[trigger] self.occupied@.contains(i) <==> (0 <= i < 64 && self.mailbox@[i] is Some)
        &&& forall|i: int|
            0 <= i < 64 && (#[trigger] self.mailbox@[i]) is Some ==> self.mailbox@[i]->0.byte() < 16
                && self.mailbox@[i]->0.byte() % 8 < 6
    }


    /// Two boards hold the same position: equal bitboards, mailbox and state,
    /// and the same history.
    pub open spec fn same_position(a: Board, b: Board) -> bool {
        &&& a.spec_bitboards() == b.spec_bitboards()
        &&& a.spec_mailbox() == b.spec_mailbox()
        &&& a.spec_state() == b.spec_state()
        &&& a.spec_history() == b.spec_history()
    }

    /// The piece, color and occupancy bitboards.
    pub closed spec fn spec_bitboards(self) -> ([Bitboard; 6], [Bitboard; 2], Bitboard) {
        (self.pieces, self.colors, self.occupied)
    }

    /// Two boards whose layouts agree, with the same placement, state and
    /// history, hold the same position.
    pub proof fn lemma_same_position(a: Board, b: Board)
        requires
            a.layout_ok(),
            b.layout_ok(),
            a.spec_mailbox() == b.spec_mailbox(),
            a.spec_state() == b.spec_state(),
            a.spec_history() == b.spec_history(),
        ensures
            Board::same_position(a, b),
    {
        reveal(Board::layout_ok);
        assert forall|t: int| 0 <= t < 6 implies a.pieces[t] == b.pieces[t] by {
            assert(a.pieces@[t]@ =~= b.pieces@[t]@);
            Bitboard::lemma_ext(a.pieces@[t], b.pieces@[t]);
        }
        assert(a.pieces =~= b.pieces);
        assert forall|c: int| 0 <= c < 2 implies a.colors[c] == b.colors[c] by {
            assert(a.colors@[c]@ =~= b.colors@[c]@);
            Bitboard::lemma_ext(a.colors@[c], b.colors@[c]);
        }
        assert(a.colors =~= b.colors);
        assert(a.occupied@ =~= b.occupied@);
        Bitboard::lemma_ext(a.occupied, b.occupied);
    }

    /// A copy of the board: the same position, history included.
    pub fn duplicate(&self) -> (b: Board)
        ensures
            Board::same_position(b, *self),
            b.wf() == self.wf(),
    {
        let mut history: Vec<Undo> = Vec::new();
        let n = self.history.len();
        let mut i: usize = 0;
        while i < n
            invariant
                i <= n,
                n == self.history@.len(),
                history@ == self.history@.subrange(0, i as int),
            decreases n - i,
        {
            history.push(self.history[i]);
            i = i + 1;
            assert(history@ =~= self.history@.subrange(0, i as int));
        }
        assert(history@ =~= self.history@);
        let b = Board {
            pieces: self.pieces,
            colors: self.colors,
            occupied: self.occupied,
            mailbox: self.mailbox,
            state: self.state,
            history,
        };
        proof {
            reveal(Board::layout_ok);
        }
        b
    }

    /// An empty board with the given state.
    pub(crate) fn empty(state: State) -> (b: Board)
        ensures
            b.layout_ok(),
            b.spec_mailbox() == Seq::new(64, |i: int| None::<Piece>),
            b.spec_state() == state,
            b.spec_history() == Seq::<Undo>::empty(),
    {
        reveal(Board::layout_ok);
        let e = Bitboard::empty();
        let b = Board {
            pieces: [e, e, e, e, e, e],
            colors: [e, e],
            occupied: e,
            mailbox: [None; 64],
            state,
            history: Vec::new(),
        };
        assert(b.mailbox@ =~= Seq::new(64, |i: int| None::<Piece>));
        b
    }


    /// `b` is the standard starting position: the pieces on their squares,
    /// White to move, all four castling rights, no en passant square, clocks
    /// `0` and `1`, no history, and a key that matches.
    pub open spec fn is_startpos(self) -> bool {
        &&& self.wf()
        &&& self.spec_mailbox() == Seq::new(64, |i: int| start_piece(i))
        &&& self.spec_state().spec_side() == Color::White
        &&& self.spec_state().spec_castling().bits() == 15
        &&& self.spec_state().spec_ep() is None
        &&& self.spec_state().spec_halfmove() == 0
        &&& self.spec_state().spec_fullmove() == 1
        &&& self.spec_history().len() == 0
    }

    /// Returns the standard chess starting position (see
    /// [`is_startpos`](Self::is_startpos)).
    pub fn startpos() -> (b: Board)
        ensures
            b.is_startpos(),
    {
        let state = State {
            side_to_move: Color::White,
            castling: CastlingRights(15),
            ep: None,
            halfmove: 0,
            fullmove: 1,
            zobrist: 0,
        };
        let mut b = Board::empty(state);
        proof {
            state.lemma_fields();
        }
        let mut i: u8 = 0;
        while i < 64
            invariant
                i <= 64,
                b.layout_ok(),
                b.spec_state().spec_side() == state.spec_side(),
                b.spec_state().spec_castling() == state.spec_castling(),
                b.spec_state().spec_ep() == state.spec_ep(),
                b.spec_state().spec_halfmove() == state.spec_halfmove(),
                b.spec_state().spec_fullmove() == state.spec_fullmove(),
                b.spec_history().len() == 0,
                b.spec_mailbox().len() == 64,
                forall|j: int|
                    0 <= j < 64 ==> #[trigger] b.spec_mailbox()[j] == if j < i {
                        start_piece(j)
                    } else {
                        None
                    },
            decreases 64 - i,
        {
            let ghost mb = b.spec_mailbox();
            if let Some(p) = start_piece_exec(i) {
                b.add_piece(p, Square::new_unchecked(i));
            }
            i = i + 1;
        }
        b.finish_setup();
        proof {
            state.castling.lemma_raw();
            assert(b.spec_mailbox() =~= Seq::new(64, |i: int| start_piece(i)));
        }
        b
    }

    /// Returns the piece occupying a square.
    pub fn piece_on(&self, square: Square) -> (p: Option<Piece>)
        ensures
            p == self.spec_mailbox()[square.idx()],
    {
        self.mailbox[square.index() as usize]
    }

    /// Returns all squares occupied by a piece type.
    pub fn pieces(&self, piece_type: PieceType) -> (b: Bitboard)
        requires
            self.layout_ok(),
        ensures
            b@ == Set::new(
                |i: int|
                    0 <= i < 64 && self.spec_mailbox()[i] is Some && self.spec_mailbox()[i]->0.spec_kind()
                        == piece_type,
            ),
    {
        reveal(Board::layout_ok);
        let b = self.pieces[piece_type.index() as usize];
        proof {
            assert forall|i: int| #[trigger] b@.contains(i) == (0 <= i < 64 && self.spec_mailbox()[i] is Some
                && self.spec_mailbox()[i]->0.spec_kind() == piece_type) by {
                if 0 <= i < 64 && self.spec_mailbox()[i] is Some {
                    let k = self.spec_mailbox()[i]->0.spec_kind();
                    assert(crate::board::piece::kind_of(kind_index(k) as int) == k);
                }
            }
            assert(b@ =~= Set::new(
                |i: int|
                    0 <= i < 64 && self.spec_mailbox()[i] is Some && self.spec_mailbox()[i]->0.spec_kind()
                        == piece_type,
            ));
        }
        b
    }

    /// Returns all squares occupied by a color.
    pub fn color(&self, color: Color) -> (b: Bitboard)
        requires
            self.layout_ok(),
        ensures
            b@ == Set::new(
                |i: int|
                    0 <= i < 64 && self.spec_mailbox()[i] is Some && self.spec_mailbox()[i]->0.spec_color()
                        == color,
            ),
    {
        reveal(Board::layout_ok);
        let b = self.colors[color.index() as usize];
        assert(b@ =~= Set::new(
            |i: int|
                0 <= i < 64 && self.spec_mailbox()[i] is Some && self.spec_mailbox()[i]->0.spec_color()
                    == color,
        ));
        b
    }

    /// Returns all occupied squares.
    pub fn occupied(&self) -> (b: Bitboard)
        requires
            self.layout_ok(),
        ensures
            b@ == Set::new(|i: int| 0 <= i < 64 && self.spec_mailbox()[i] is Some),
    {
        reveal(Board::layout_ok);
        assert(self.occupied@ =~= Set::new(|i: int| 0 <= i < 64 && self.spec_mailbox()[i] is Some));
        self.occupied
    }

    /// Returns the current game state.
    pub fn state(&self) -> (s: &State)
        ensures
            *s == self.spec_state(),
    {
        &self.state
    }

    /// Returns the square occupied by a side's king: the lowest such square.
    pub fn king_square(&self, color: Color) -> (s: Square)
        requires
            self.layout_ok(),
            exists|i: int|
                0 <= i < 64 && self.spec_mailbox()[i] == Some(Piece::of(color, PieceType::King)),
        ensures
            0 <= s.idx() < 64,
            self.spec_mailbox()[s.idx()] == Some(Piece::of(color, PieceType::King)),
            forall|j: int|
                0 <= j < s.idx() ==> self.spec_mailbox()[j] != Some(Piece::of(color, PieceType::King)),
    {
        reveal(Board::layout_ok);
        let kings = self.pieces(PieceType::King).and(self.color(color));
        let ghost k = Piece::of(color, PieceType::King);
        proof {
            let i = choose|i: int| 0 <= i < 64 && self.spec_mailbox()[i] == Some(k);
            k.lemma_of(k, color, PieceType::King);
            assert(kings@.contains(i));
            assert forall|j: int| #[trigger] kings@.contains(j) == (0 <= j < 64 && self.spec_mailbox()[j] == Some(k)) by {
                if 0 <= j < 64 && self.spec_mailbox()[j] is Some {
                    let q = self.mailbox@[j]->0;
                    q.lemma_of(k, color, PieceType::King);
                    k.lemma_of(q, color, PieceType::King);
                }
            }
        }
        match kings.lsb() {
            Some(s) => {
                assert forall|j: int|
                    0 <= j < s.idx() implies self.spec_mailbox()[j] != Some(k) by {
                    assert(!kings@.contains(j));
                }
                s
            },
            None => {
                assert(false);
                Square::new_unchecked(0)
            },
        }
    }

    /// Places `piece` on the empty `square`, XORing its key into the state.
    #[verifier::rlimit(40)]
    pub(crate) fn add_piece(&mut self, piece: Piece, square: Square)
        requires
            old(self).layout_ok(),
            old(self).spec_mailbox()[square.idx()] is None,
        ensures
            final(self).layout_ok(),
            final(self).spec_mailbox() == old(self).spec_mailbox().update(square.idx(), Some(piece)),
            final(self).spec_history() == old(self).spec_history(),
            final(self).spec_state().spec_side() == old(self).spec_state().spec_side(),
            final(self).spec_state().spec_castling() == old(self).spec_state().spec_castling(),
            final(self).spec_state().spec_ep() == old(self).spec_state().spec_ep(),
            final(self).spec_state().spec_halfmove() == old(self).spec_state().spec_halfmove(),
            final(self).spec_state().spec_fullmove() == old(self).spec_state().spec_fullmove(),
            final(self).spec_state().spec_zobrist() == old(self).spec_state().spec_zobrist()
                ^ piece_key(piece, square.idx()),
            old(self).wf() ==> final(self).wf(),
    {
        reveal(Board::layout_ok);
        let ghost s = square.idx();
        let _ = piece.index();
        let i = square.index() as usize;
        self.mailbox[i] = Some(piece);
        let t = piece.piece_type().index() as usize;
        let mut b = self.pieces[t];
        b.set(square);
        self.pieces[t] = b;
        let c = piece.color().index() as usize;
        let mut b = self.colors[c];
        b.set(square);
        self.colors[c] = b;
        self.occupied.set(square);
        let k = piece_key_exec(piece, square);
        self.state.zobrist = self.state.zobrist ^ k;
        proof {
            self.lemma_layout_after_update(*old(self), s);
            assert(self.mailbox@ =~= old(self).mailbox@.update(s, Some(piece)));
            old(self).state.lemma_fields();
            self.state.lemma_fields();
            if old(self).wf() {
                lemma_hash_update(old(self).mailbox@, 64, state_key(old(self).state), s, piece);
            }
        }
    }

    /// Removes `piece` from `square`, XORing its key out of the state.
    #[verifier::rlimit(40)]
    fn remove_piece(&mut self, piece: Piece, square: Square)
        requires
            old(self).layout_ok(),
            old(self).spec_mailbox()[square.idx()] == Some(piece),
        ensures
            final(self).layout_ok(),
            final(self).spec_mailbox() == old(self).spec_mailbox().update(square.idx(), None),
            final(self).spec_history() == old(self).spec_history(),
            final(self).spec_state().spec_side() == old(self).spec_state().spec_side(),
            final(self).spec_state().spec_castling() == old(self).spec_state().spec_castling(),
            final(self).spec_state().spec_ep() == old(self).spec_state().spec_ep(),
            final(self).spec_state().spec_halfmove() == old(self).spec_state().spec_halfmove(),
            final(self).spec_state().spec_fullmove() == old(self).spec_state().spec_fullmove(),
            final(self).spec_state().spec_zobrist() == old(self).spec_state().spec_zobrist()
                ^ piece_key(piece, square.idx()),
            old(self).wf() ==> final(self).wf(),
    {
        reveal(Board::layout_ok);
        let ghost s = square.idx();
        let i = square.index() as usize;
        self.mailbox[i] = None;
        let t = piece.piece_type().index() as usize;
        let mut b = self.pieces[t];
        b.clear(square);
        self.pieces[t] = b;
        let c = piece.color().index() as usize;
        let mut b = self.colors[c];
        b.clear(square);
        self.colors[c] = b;
        self.occupied.clear(square);
        let k = piece_key_exec(piece, square);
        self.state.zobrist = self.state.zobrist ^ k;
        proof {
            self.lemma_layout_after_update(*old(self), s);
            assert(self.mailbox@ =~= old(self).mailbox@.update(s, None));
            old(self).state.lemma_fields();
            self.state.lemma_fields();
            if old(self).wf() {
                let mb = self.mailbox@;
                assert(mb.update(s, Some(piece)) =~= old(self).mailbox@);
                lemma_hash_update(mb, 64, state_key(old(self).state), s, piece);
                let h = hash_pieces(mb, 64, state_key(old(self).state));
                lemma_xor(h, piece_key(piece, s), piece_key(piece, s));
                lemma_xor(piece_key(piece, s), 0, 0);
            }
        }
    }

    /// Applies a move and saves enough information to undo it.
    #[verifier::rlimit(60)]
    pub fn make(&mut self, mv: Move)
        requires
            old(self).wf(),
            can_make(old(self).spec_mailbox(), mv),
        ensures
            made(*old(self), mv, *final(self)),
    {
        let ghost mb0 = self.mailbox@;
        let ghost st0 = self.state;
        let from = mv.from();
        let to = mv.to();
        let moving = match self.piece_on(from) {
            Some(p) => p,
            None => {
                assert(false);
                return;
            },
        };
        let t = mv.move_type();
        let cap_sq = if t == MoveType::EnPassant {
            Square::new_unchecked(
                if moving.color() == Color::White {
                    to.index() - 8
                } else {
                    to.index() + 8
                },
            )
        } else {
            to
        };
        let captured = if mv.is_capture() {
            self.piece_on(cap_sq)
        } else {
            None
        };
        assert(cap_sq.idx() == capture_square(mb0, mv));
        assert(captured == captured_by(mb0, mv));
        self.history.push(Undo { state: self.state, captured });
        proof {
            old(self).lemma_layout_frame(*self);
        }
        self.set_ep(None);
        self.remove_piece(moving, from);
        if let Some(piece) = captured {
            self.remove_piece(piece, cap_sq);
        }
        assert(self.mailbox@ =~= lifted_mailbox(mb0, mv));
        let placed = match mv.promoted_piece() {
            Some(kind) => Piece::new(moving.color(), kind),
            None => moving,
        };
        assert(placed == placed_by(mb0, mv));
        self.add_piece(placed, to);
        let ghost mb3 = self.mailbox@;
        assert(mb3 =~= placed_mailbox(mb0, mv));
        match t {
            MoveType::DoublePawnPush => {
                let ep = Square::new_unchecked((from.index() + to.index()) / 2);
                self.set_ep(Some(ep));
            },
            MoveType::KingCastle | MoveType::QueenCastle => {
                let (rf, rt) = castle_rook_squares(to);
                let rook = match self.piece_on(rf) {
                    Some(r) => r,
                    None => {
                        assert(false);
                        return;
                    },
                };
                self.remove_piece(rook, rf);
                self.add_piece(rook, rt);
                assert(self.mailbox@ =~= mb3.update(rf.idx(), None).update(rt.idx(), mb3[rf.idx()]));
            },
            _ => {},
        }
        assert(self.mailbox@ =~= make_mailbox(mb0, mv));
        let keep = castle_mask_exec(from.index()) & castle_mask_exec(to.index());
        let rights = CastlingRights(self.state.castling.0 & keep);
        proof {
            self.state.lemma_fields();
            self.state.castling.lemma_raw();
            rights.lemma_raw();
        }
        self.set_castling(rights);
        let halfmove = if moving.piece_type() == PieceType::Pawn || captured.is_some() {
            0
        } else {
            self.state.halfmove.saturating_add(1)
        };
        let fullmove = if moving.color() == Color::Black {
            self.state.fullmove.saturating_add(1)
        } else {
            self.state.fullmove
        };
        proof {
            self.state.lemma_fields();
        }
        self.set_clocks(halfmove, fullmove);
        self.flip_side();
        proof {
            st0.lemma_fields();
            Undo::lemma_of(Undo { state: st0, captured }, st0, captured);
            Undo { state: st0, captured }.lemma_fields();
            let st = old(self).spec_state();
            let st2 = self.spec_state();
            let moving_s = mb0[mv.from_idx()]->0;
            assert(self.wf());
            assert(self.spec_mailbox() == make_mailbox(mb0, mv));
            assert(self.spec_history() == old(self).spec_history().push(Undo::of(st, captured)));
            assert(st2.spec_side() == other(st.spec_side()));
            assert(st2.spec_castling().bits() == st.spec_castling().bits() & (castle_mask(mv.from_idx())
        & castle_mask(mv.to_idx())));
            assert(st2.spec_ep() == (if mv.spec_type() == MoveType::DoublePawnPush {
        Some(Square::at((mv.from_idx() + mv.to_idx()) / 2))
    } else {
        None
    }));
            assert(st2.spec_halfmove() == (if moving_s.spec_kind() == PieceType::Pawn || captured is Some {
        0
    } else {
        st.spec_halfmove().saturating_add(1)
    }));
            assert(st2.spec_fullmove() == (if moving_s.spec_color() == Color::Black {
        st.spec_fullmove().saturating_add(1)
    } else {
        st.spec_fullmove()
    }));
        }
    }

    /// Passes the move to the other side without moving a piece, for
    /// null-move pruning.
    pub fn make_null(&mut self)
        requires
            old(self).wf(),
        ensures
            null_made(*old(self), *final(self)),
    {
        let ghost st0 = self.state;
        self.history.push(Undo { state: self.state, captured: None });
        proof {
            old(self).lemma_layout_frame(*self);
        }
        self.set_ep(None);
        let halfmove = self.state.halfmove.saturating_add(1);
        let fullmove = self.state.fullmove;
        proof {
            self.state.lemma_fields();
        }
        self.set_clocks(halfmove, fullmove);
        self.flip_side();
        proof {
            st0.lemma_fields();
            let u = Undo { state: st0, captured: None };
            u.lemma_fields();
            Undo::lemma_of(u, st0, None);
            assert(u == Undo::of(st0, None));
            assert(self.spec_history() =~= old(self).spec_history().push(Undo::of(st0, None)));
        }
    }

    /// Takes back the last pass.
    pub fn unmake_null(&mut self)
        requires
            old(self).layout_ok(),
            old(self).spec_history().len() > 0,
        ensures
            null_unmade(*old(self), *final(self)),
    {
        let ghost hist = self.history@;
        match self.history.pop() {
            Some(undo) => {
                self.state = undo.state;
                proof {
                    old(self).lemma_layout_frame(*self);
                    undo.lemma_fields();
                    assert(self.history@ =~= hist.drop_last());
                }
            },
            None => {
                assert(false);
            },
        }
    }

    /// Whether the position occurred before (see [`repeats`]).
    pub fn is_repetition(&self) -> (r: bool)
        ensures
            r == repeats(*self),
    {
        let n = self.history.len();
        let key = self.state.zobrist;
        let limit = self.state.halfmove as usize;
        let mut d: usize = 4;
        proof {
            self.state.lemma_fields();
        }
        while d <= limit && d <= n
            invariant
                n == self.spec_history().len(),
                key == self.spec_state().spec_zobrist(),
                limit == self.spec_state().spec_halfmove(),
                4 <= d <= limit + 2 || d == 4,
                d % 2 == 0,
                forall|e: int|
                    4 <= e < d && e % 2 == 0 && e <= limit && e <= n ==> #[trigger] self.spec_history()[n
                        - e].spec_state().spec_zobrist() != key,
            decreases n + 2 - d,
        {
            let undo = self.history[n - d];
            proof {
                undo.lemma_fields();
                undo.state.lemma_fields();
            }
            if undo.state.zobrist == key {
                return true;
            }
            d = d + 2;
        }
        false
    }

    /// Undoes the most recently applied move.
    #[verifier::rlimit(60)]
    pub fn unmake(&mut self, mv: Move)
        requires
            old(self).layout_ok(),
            can_unmake(*old(self), mv),
        ensures
            unmade(*old(self), mv, *final(self)),
    {
        let ghost mb0 = self.mailbox@;
        let ghost hist = self.history@;
        let undo = match self.history.pop() {
            Some(u) => u,
            None => {
                assert(false);
                return;
            },
        };
        proof {
            old(self).lemma_layout_frame(*self);
            undo.lemma_fields();
            undo.state.lemma_fields();
        }
        let from = mv.from();
        let to = mv.to();
        let moved = match self.piece_on(to) {
            Some(p) => p,
            None => {
                assert(false);
                return;
            },
        };
        self.remove_piece(moved, to);
        let restored = if mv.is_promotion() {
            Piece::new(undo.state.side_to_move, PieceType::Pawn)
        } else {
            moved
        };
        assert(restored == returning_piece(mb0, mv, undo));
        self.add_piece(restored, from);
        let ghost m2 = self.mailbox@;
        let t = mv.move_type();
        if t == MoveType::KingCastle || t == MoveType::QueenCastle {
            let (rf, rt) = castle_rook_squares(to);
            let rook = match self.piece_on(rt) {
                Some(r) => r,
                None => {
                    assert(false);
                    return;
                },
            };
            self.remove_piece(rook, rt);
            self.add_piece(rook, rf);
            assert(self.mailbox@ =~= m2.update(rt.idx(), None).update(rf.idx(), m2[rt.idx()]));
        }
        assert(self.mailbox@ =~= returned_mailbox(mb0, mv, undo));
        if let Some(piece) = undo.captured {
            let square = if t == MoveType::EnPassant {
                Square::new_unchecked(
                    if undo.state.side_to_move == Color::White {
                        to.index() - 8
                    } else {
                        to.index() + 8
                    },
                )
            } else {
                to
            };
            assert(square.idx() == restore_square(mv, undo));
            self.add_piece(piece, square);
        }
        assert(self.mailbox@ =~= unmake_mailbox(mb0, mv, undo));
        let ghost before = *self;
        self.state = undo.state;
        proof {
            before.lemma_layout_frame(*self);
        }
    }

    /// The key of the position, computed from scratch.
    pub fn recompute_zobrist(&self) -> (z: u64)
        ensures
            z == position_key(self.spec_mailbox(), self.spec_state()),
    {
        let ghost st = self.state;
        let mut z = castle_key_exec(self.state.castling);
        let ghost z0 = z;
        if self.state.side_to_move == Color::Black {
            z = z ^ side_key_exec();
        }
        let ghost z1 = z;
        if let Some(s) = self.state.ep {
            z = z ^ ep_key_exec(s);
        }
        proof {
            st.lemma_fields();
            lemma_xor(z0, 0, 0);
            lemma_xor(z1, 0, 0);
        }
        let mut i: u8 = 0;
        while i < 64
            invariant
                i <= 64,
                self.mailbox@.len() == 64,
                z == hash_pieces(self.mailbox@, i as int, state_key(self.state)),
            decreases 64 - i,
        {
            let s = Square::new_unchecked(i);
            if let Some(p) = self.piece_on(s) {
                z = z ^ piece_key_exec(p, s);
            }
            i = i + 1;
        }
        z
    }

    /// Sets the key from the position once its pieces and state are in place.
    pub(crate) fn finish_setup(&mut self)
        requires
            old(self).layout_ok(),
        ensures
            final(self).wf(),
            final(self).spec_mailbox() == old(self).spec_mailbox(),
            final(self).spec_history() == old(self).spec_history(),
            final(self).spec_state().spec_side() == old(self).spec_state().spec_side(),
            final(self).spec_state().spec_castling() == old(self).spec_state().spec_castling(),
            final(self).spec_state().spec_ep() == old(self).spec_state().spec_ep(),
            final(self).spec_state().spec_halfmove() == old(self).spec_state().spec_halfmove(),
            final(self).spec_state().spec_fullmove() == old(self).spec_state().spec_fullmove(),
    {
        let z = self.recompute_zobrist();
        let ghost st1 = self.state;
        self.state.zobrist = z;
        proof {
            st1.lemma_fields();
            self.state.lemma_fields();
            old(self).lemma_layout_frame(*self);
            assert(state_key(self.state) == state_key(st1));
        }
    }

    /// Replaces the en passant square, keeping the key in step.
    fn set_ep(&mut self, ep: Option<Square>)
        requires
            old(self).wf(),
        ensures
            final(self).wf(),
            final(self).spec_mailbox() == old(self).spec_mailbox(),
            final(self).spec_history() == old(self).spec_history(),
            final(self).spec_state().spec_side() == old(self).spec_state().spec_side(),
            final(self).spec_state().spec_castling() == old(self).spec_state().spec_castling(),
            final(self).spec_state().spec_ep() == ep,
            final(self).spec_state().spec_halfmove() == old(self).spec_state().spec_halfmove(),
            final(self).spec_state().spec_fullmove() == old(self).spec_state().spec_fullmove(),
    {
        let ghost st1 = self.state;
        let ghost z0 = self.state.zobrist;
        if let Some(s) = self.state.ep {
            let k = ep_key_exec(s);
            self.state.zobrist = self.state.zobrist ^ k;
        }
        let ghost z1 = self.state.zobrist;
        self.state.ep = ep;
        if let Some(s) = ep {
            let k = ep_key_exec(s);
            self.state.zobrist = self.state.zobrist ^ k;
        }
        proof {
            st1.lemma_fields();
            old(self).lemma_layout_frame(*self);
            self.state.lemma_fields();
            let (e1, e2) = (ep_part(st1.ep), ep_part(ep));
            lemma_xor(z0, 0, 0);
            lemma_xor(z1, 0, 0);
            lemma_xor(z0, e1, e2);
            lemma_xor_term(castle_key(st1.castling.bits()), side_part(st1.side_to_move), e1, e2);
            lemma_rekey(self.mailbox@, st1, self.state);
        }
    }

    /// Replaces the castling rights, keeping the key in step.
    fn set_castling(&mut self, rights: CastlingRights)
        requires
            old(self).wf(),
        ensures
            final(self).wf(),
            final(self).spec_mailbox() == old(self).spec_mailbox(),
            final(self).spec_history() == old(self).spec_history(),
            final(self).spec_state().spec_side() == old(self).spec_state().spec_side(),
            final(self).spec_state().spec_castling() == rights,
            final(self).spec_state().spec_ep() == old(self).spec_state().spec_ep(),
            final(self).spec_state().spec_halfmove() == old(self).spec_state().spec_halfmove(),
            final(self).spec_state().spec_fullmove() == old(self).spec_state().spec_fullmove(),
    {
        let ghost st1 = self.state;
        let k1 = castle_key_exec(self.state.castling);
        let k2 = castle_key_exec(rights);
        self.state.zobrist = (self.state.zobrist ^ k1) ^ k2;
        self.state.castling = rights;
        proof {
            st1.lemma_fields();
            old(self).lemma_layout_frame(*self);
            self.state.lemma_fields();
            lemma_xor(st1.zobrist, k1, k2);
            lemma_xor_term(k1, side_part(st1.side_to_move), ep_part(st1.ep), k2);
            lemma_rekey(self.mailbox@, st1, self.state);
        }
    }

    /// Passes the move to the other side, keeping the key in step.
    fn flip_side(&mut self)
        requires
            old(self).wf(),
        ensures
            final(self).wf(),
            final(self).spec_mailbox() == old(self).spec_mailbox(),
            final(self).spec_history() == old(self).spec_history(),
            final(self).spec_state().spec_side() == other(old(self).spec_state().spec_side()),
            final(self).spec_state().spec_castling() == old(self).spec_state().spec_castling(),
            final(self).spec_state().spec_ep() == old(self).spec_state().spec_ep(),
            final(self).spec_state().spec_halfmove() == old(self).spec_state().spec_halfmove(),
            final(self).spec_state().spec_fullmove() == old(self).spec_state().spec_fullmove(),
    {
        let ghost st1 = self.state;
        let k = side_key_exec();
        self.state.side_to_move = self.state.side_to_move.flip();
        self.state.zobrist = self.state.zobrist ^ k;
        proof {
            st1.lemma_fields();
            old(self).lemma_layout_frame(*self);
            self.state.lemma_fields();
            let (s1, s2) = (side_part(st1.side_to_move), side_part(self.state.side_to_move));
            let c = castle_key(st1.castling.bits());
            lemma_xor_term(c, s1, ep_part(st1.ep), s2);
            lemma_xor(s1, 0, 0);
            lemma_xor(0, s2, 0);
            lemma_xor(s2, 0, 0);
            lemma_rekey(self.mailbox@, st1, self.state);
        }
    }

    /// Sets the halfmove clock and fullmove number, which the key ignores.
    fn set_clocks(&mut self, halfmove: u8, fullmove: u16)
        requires
            old(self).wf(),
        ensures
            final(self).wf(),
            final(self).spec_mailbox() == old(self).spec_mailbox(),
            final(self).spec_history() == old(self).spec_history(),
            final(self).spec_state().spec_side() == old(self).spec_state().spec_side(),
            final(self).spec_state().spec_castling() == old(self).spec_state().spec_castling(),
            final(self).spec_state().spec_ep() == old(self).spec_state().spec_ep(),
            final(self).spec_state().spec_halfmove() == halfmove,
            final(self).spec_state().spec_fullmove() == fullmove,
    {
        let ghost st1 = self.state;
        self.state.halfmove = halfmove;
        self.state.fullmove = fullmove;
        proof {
            st1.lemma_fields();
            old(self).lemma_layout_frame(*self);
            self.state.lemma_fields();
        }
    }

    /// A consistent board's key is determined by its pieces and its castling
    /// rights, side to move and en passant square.
    pub proof fn lemma_key(self, other: Board)
        requires
            self.wf(),
            other.wf(),
            self.spec_mailbox() == other.spec_mailbox(),
            self.spec_state().spec_side() == other.spec_state().spec_side(),
            self.spec_state().spec_castling() == other.spec_state().spec_castling(),
            self.spec_state().spec_ep() == other.spec_state().spec_ep(),
        ensures
            self.spec_state().spec_zobrist() == other.spec_state().spec_zobrist(),
    {
        self.state.lemma_fields();
        other.state.lemma_fields();
    }

    /// A consistent board is well laid out.
    pub proof fn lemma_wf_layout(self)
        requires
            self.wf(),
        ensures
            self.layout_ok(),
    {
    }

    /// Every piece on a well-laid-out board is a well-formed one.
    pub proof fn lemma_valid_pieces(self)
        requires
            self.layout_ok(),
        ensures
            forall|i: int|
                0 <= i < 64 && (#[trigger] self.spec_mailbox()[i]) is Some ==> self.spec_mailbox()[i]->0.byte()
                    < 16 && self.spec_mailbox()[i]->0.byte() % 8 < 6,
    {
        reveal(Board::layout_ok);
    }

    /// The layout depends only on the bitboards and the mailbox.
    proof fn lemma_layout_frame(self, other: Board)
        requires
            self.layout_ok(),
            other.pieces == self.pieces,
            other.colors == self.colors,
            other.occupied == self.occupied,
            other.mailbox == self.mailbox,
        ensures
            other.layout_ok(),
    {
        reveal(Board::layout_ok);
    }

    /// After one square of the mailbox changed and the bitboards were
    /// updated to match, the layout agrees again.
    proof fn lemma_layout_after_update(self, old_board: Board, s: int)
        requires
            old_board.layout_ok(),
            0 <= s < 64,
            forall|j: int| 0 <= j < 64 && j != s ==> self.mailbox@[j] == old_board.mailbox@[j],
            self.mailbox@[s] is Some ==> self.mailbox@[s]->0.byte() < 16 && self.mailbox@[s]->0.byte()
                % 8 < 6,
            forall|t: int, j: int|
                0 <= t < 6 ==> (#[trigger] self.pieces@[t]@.contains(j) <==> if j == s {
                    self.mailbox@[s] is Some && kind_index(self.mailbox@[s]->0.spec_kind()) == t
                } else {
                    old_board.pieces@[t]@.contains(j)
                }),
            forall|c: int, j: int|
                0 <= c < 2 ==> (#[trigger] self.colors@[c]@.contains(j) <==> if j == s {
                    self.mailbox@[s] is Some && color_index(self.mailbox@[s]->0.spec_color()) == c
                } else {
                    old_board.colors@[c]@.contains(j)
                }),
            forall|j: int| #[trigger] self.occupied@.contains(j) <==> if j == s {
                self.mailbox@[s] is Some
            } else {
                old_board.occupied@.contains(j)
            },
        ensures
            self.layout_ok(),
    {
        reveal(Board::layout_ok);
    }

    /// The board is consistent: its layout agrees and its Zobrist key is the
    /// key of its position.
    pub closed spec fn wf(self) -> bool {
        &&& self.layout_ok()
        &&& self.state.zobrist == position_key(self.mailbox@, self.state)
    }
}

} // verus!
