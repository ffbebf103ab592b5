use vstd::prelude::*;
use crate::lattice_board::piece::{color_code, opponent, piece_code};
use crate::lattice_board::moves::{flag_is_capture, flag_is_promotion, flag_promoted_piece};
use crate::lattice_board::{Bitboard, CastlingRights, Color, Move, MoveFlag, Piece, PieceType, Square};

verus! {

broadcast use vstd::array::group_array_axioms;

/// The chessboard: one bitboard per piece plus a mailbox for O(1) lookup.
///
/// The bitboards and the mailbox always describe the same placement: bitboard
/// `p` holds exactly the squares whose mailbox entry is the piece with byte `p`.
#[derive(Clone, PartialEq, Eq, Debug)]
pub struct Board {
    /// Piece bitboards, indexed by the piece's packed byte.
    bitboards: [Bitboard; 12],
    en_passent: Option<Square>,
    castling_rights: CastlingRights,
    side_to_move: Color,
    half_move_clock: u8,
    full_moves: u16,
    /// Piece mailbox: the piece on each square.
    pieces: [Option<Piece>; 64],
}

/// Whether `mb[i]` holds the piece with byte `p`.
pub open spec fn holds(mb: Seq<Option<Piece>>, i: int, p: int) -> bool {
    0 <= i < 64 && mb[i] is Some && mb[i]->0.code() == p
}

/// The occupied squares of a mailbox.
pub open spec fn occupied_squares(mb: Seq<Option<Piece>>) -> Set<int> {
    Set::new(|i: int| 0 <= i < 64 && mb[i] is Some)
}

/// The squares of a mailbox holding a piece of color `c`.
pub open spec fn color_squares(mb: Seq<Option<Piece>>, c: Color) -> Set<int> {
    Set::new(|i: int| 0 <= i < 64 && mb[i] is Some && mb[i]->0.spec_color() == c)
}

/// The piece of color `c` and type `t`.
pub open spec fn piece_of(c: Color, t: PieceType) -> Piece {
    Piece::from_code(piece_code(c, t))
}

/// The piece of color `c` and type `t` has a valid byte and that color and type.
pub proof fn lemma_piece_of(c: Color, t: PieceType)
    ensures
        piece_of(c, t).code() == piece_code(c, t),
        piece_of(c, t).code() < 12,
        piece_of(c, t).spec_color() == c,
        piece_of(c, t).spec_piece() == t,
{
    let p = piece_of(c, t);
    p.lemma_code(p, piece_code(c, t));
    crate::lattice_board::piece::lemma_piece_code_roundtrip(p, c, t);
}

/// Every piece of the starting position has a valid byte.
proof fn lemma_start_codes()
    ensures
        forall|i: int| #[trigger] start_piece(i) is Some ==> start_piece(i)->0.code() < 12,
{
    lemma_piece_of(Color::White, PieceType::Pawn);
    lemma_piece_of(Color::Black, PieceType::Pawn);
    lemma_piece_of(Color::White, PieceType::Knight);
    lemma_piece_of(Color::Black, PieceType::Knight);
    lemma_piece_of(Color::White, PieceType::Bishop);
    lemma_piece_of(Color::Black, PieceType::Bishop);
    lemma_piece_of(Color::White, PieceType::Rook);
    lemma_piece_of(Color::Black, PieceType::Rook);
    lemma_piece_of(Color::White, PieceType::Queen);
    lemma_piece_of(Color::Black, PieceType::Queen);
    lemma_piece_of(Color::White, PieceType::King);
    lemma_piece_of(Color::Black, PieceType::King);
}


/// The rook's `(from, to)` square indices for a castle by `us`: h->f for a
/// kingside castle, a->d for a queenside one, on the side's home rank.
pub open spec fn rook_squares(us: Color, kingside: bool) -> (int, int) {
    let rank: int = if us == Color::White { 0 } else { 7 };
    if kingside {
        (8 * rank + 7, 8 * rank + 5)
    } else {
        (8 * rank, 8 * rank + 3)
    }
}

/// The square of the pawn an en passant capture by `us` onto `dst` removes:
/// beside the capturer, on rank 5 for White and rank 4 for Black.
pub open spec fn ep_victim_square(us: Color, dst: int) -> int {
    8 * (4 - color_code(us)) + dst % 8
}

/// The en passant target a double pawn push by `us` from `src` leaves: the
/// square it skipped, on rank 3 for White and rank 6 for Black.
pub open spec fn ep_target_square(us: Color, src: int) -> int {
    8 * (2 + 3 * color_code(us)) + src % 8
}

/// The castling rights that survive a piece leaving or landing on square `i`:
/// the king homes clear both of their side's rights, each rook home its own.
pub open spec fn castle_mask(i: int) -> u8 {
    if i == 0 {
        13
    } else if i == 7 {
        14
    } else if i == 4 {
        12
    } else if i == 56 {
        7
    } else if i == 63 {
        11
    } else if i == 60 {
        3
    } else {
        15
    }
}

/// Whether a flag is one of the two castles.
pub open spec fn is_castle(f: MoveFlag) -> bool {
    f == MoveFlag::KingCastle || f == MoveFlag::QueenCastle
}

/// The piece that lands on the destination when `us` plays `m` on `mb`.
pub open spec fn landing_piece(mb: Seq<Option<Piece>>, m: Move, us: Color) -> Piece {
    match flag_promoted_piece(m.spec_flag()) {
        Some(t) => piece_of(us, t),
        None => mb[m.src_idx()]->0,
    }
}

/// The mailbox after `us` plays `m`: the castling rook or the en passant
/// victim is handled first, then the piece leaves its source and lands on the
/// destination (replacing anything there).
pub open spec fn make_mailbox(mb: Seq<Option<Piece>>, m: Move, us: Color) -> Seq<Option<Piece>> {
    let f = m.spec_flag();
    let mb1 = if is_castle(f) {
        let (rs, rd) = rook_squares(us, f == MoveFlag::KingCastle);
        mb.update(rs, None).update(rd, Some(piece_of(us, PieceType::Rook)))
    } else if f == MoveFlag::EnPassant {
        mb.update(ep_victim_square(us, m.dst_idx()), None)
    } else {
        mb
    };
    mb1.update(m.src_idx(), None).update(m.dst_idx(), Some(landing_piece(mb, m, us)))
}

/// The mailbox after taking back `m`, played by `us`, which captured
/// `captured` on its destination: the piece (a pawn again after a promotion)
/// returns to its source, the castling rook to its corner, and the captured
/// piece (or en passant victim) to its square.
pub open spec fn unmake_mailbox(
    mb: Seq<Option<Piece>>,
    m: Move,
    us: Color,
    captured: Option<Piece>,
) -> Seq<Option<Piece>> {
    let f = m.spec_flag();
    let moved = if flag_is_promotion(f) {
        piece_of(us, PieceType::Pawn)
    } else {
        mb[m.dst_idx()]->0
    };
    let mb1 = if is_castle(f) {
        let (rs, rd) = rook_squares(us, f == MoveFlag::KingCastle);
        mb.update(rd, None).update(rs, Some(piece_of(us, PieceType::Rook)))
    } else {
        mb
    };
    let mb2 = mb1.update(m.dst_idx(), None).update(m.src_idx(), Some(moved));
    if f == MoveFlag::EnPassant {
        mb2.update(ep_victim_square(us, m.dst_idx()), Some(piece_of(opponent(us), PieceType::Pawn)))
    } else if captured is Some {
        mb2.update(m.dst_idx(), captured)
    } else {
        mb2
    }
}

/// Whether `m` is a move that taking back restores exactly: the source holds a
/// piece (a pawn of the mover for a promotion) and differs from the
/// destination; a castle finds its rook in the corner and the rook's target
/// empty, apart from the king's squares; an en passant capture lands on an
/// empty square and finds an enemy pawn beside the capturer.
pub open spec fn reversible(mb: Seq<Option<Piece>>, m: Move, us: Color) -> bool {
    let f = m.spec_flag();
    let src = m.src_idx();
    let dst = m.dst_idx();
    &&& mb.len() == 64
    &&& src != dst
    &&& mb[src] is Some
    &&& flag_is_promotion(f) ==> mb[src] == Some(piece_of(us, PieceType::Pawn))
    &&& is_castle(f) ==> {
        let (rs, rd) = rook_squares(us, f == MoveFlag::KingCastle);
        &&& mb[rs] == Some(piece_of(us, PieceType::Rook))
        &&& mb[rd] is None
        &&& rs != src && rs != dst && rd != src && rd != dst
    }
    &&& f == MoveFlag::EnPassant ==> {
        let v = ep_victim_square(us, dst);
        &&& mb[dst] is None
        &&& mb[v] == Some(piece_of(opponent(us), PieceType::Pawn))
        &&& v != src && v != dst
    }
}

/// Taking back a reversible move restores the mailbox exactly.
pub proof fn lemma_mailbox_round_trip(mb: Seq<Option<Piece>>, m: Move, us: Color)
    requires
        reversible(mb, m, us),
    ensures
        unmake_mailbox(make_mailbox(mb, m, us), m, us, mb[m.dst_idx()]) == mb,
{
    let f = m.spec_flag();
    let after = make_mailbox(mb, m, us);
    let back = unmake_mailbox(after, m, us, mb[m.dst_idx()]);
    assert(after[m.dst_idx()] == Some(landing_piece(mb, m, us)));
    if flag_is_promotion(f) {
        assert(flag_promoted_piece(f) is Some);
    }
    assert(back =~= mb);
}

/// `after` and `undo` are what [`Board::make_move`] produces from `b` and `m`.
pub open spec fn made(b: Board, m: Move, after: Board, undo: Undo) -> bool {
    let us = b.spec_side();
    let f = m.spec_flag();
    let src = m.src_idx();
    let dst = m.dst_idx();
    let moving = b.mailbox()[src]->0;
    &&& after.wf()
    &&& after.mailbox() == make_mailbox(b.mailbox(), m, us)
    &&& after.spec_side() == opponent(us)
    &&& after.spec_half() == (if moving.spec_piece() == PieceType::Pawn || flag_is_capture(f) {
        0
    } else {
        b.spec_half() + 1
    })
    &&& after.spec_full() == (if us == Color::Black {
        b.spec_full() + 1
    } else {
        b.spec_full() as int
    })
    &&& after.spec_castling().mask() == b.spec_castling().mask() & (castle_mask(src) & castle_mask(
        dst,
    ))
    &&& f == MoveFlag::DoublePawnPush ==> (after.spec_ep() is Some && after.spec_ep()->0.idx()
        == ep_target_square(us, src))
    &&& f != MoveFlag::DoublePawnPush ==> after.spec_ep() is None
    &&& undo.spec_captured() == b.mailbox()[dst]
    &&& undo.spec_castling() == b.spec_castling()
    &&& undo.spec_ep() == b.spec_ep()
    &&& undo.spec_half() == b.spec_half()
}

/// `after` is what [`Board::unmake_move`] produces from `b`, `m` and `undo`.
pub open spec fn unmade(b: Board, m: Move, undo: Undo, after: Board) -> bool {
    let us = opponent(b.spec_side());
    &&& after.wf()
    &&& after.mailbox() == unmake_mailbox(b.mailbox(), m, us, undo.spec_captured())
    &&& after.spec_side() == us
    &&& after.spec_full() == (if us == Color::Black {
        b.spec_full() - 1
    } else {
        b.spec_full() as int
    })
    &&& after.spec_castling() == undo.spec_castling()
    &&& after.spec_ep() == undo.spec_ep()
    &&& after.spec_half() == undo.spec_half()
}

/// Making a move and then unmaking it with the returned [`Undo`] restores the
/// board exactly, for every move whose take-back is determined by the board
/// (see [`reversible`]): pseudo-legal moves are such moves.
pub proof fn lemma_make_unmake_round_trip(b: Board, m: Move, mid: Board, undo: Undo, after: Board)
    requires
        b.wf(),
        reversible(b.mailbox(), m, b.spec_side()),
        made(b, m, mid, undo),
        unmade(mid, m, undo, after),
    ensures
        after == b,
{
    lemma_mailbox_round_trip(b.mailbox(), m, b.spec_side());
    crate::lattice_board::piece::lemma_color_laws(b.spec_side());
    Board::lemma_ext(after, b);
}

/// The rook's `(from, to)` squares for a castle by `color`.
fn castle_rook_squares(color: Color, flag: MoveFlag) -> (r: (Square, Square))
    requires
        is_castle(flag),
    ensures
        (r.0.idx(), r.1.idx()) == rook_squares(color, flag == MoveFlag::KingCastle),
{
    let rank: u8 = if color == Color::White {
        0
    } else {
        7
    };
    match flag {
        MoveFlag::KingCastle => (Square::new(rank, 7), Square::new(rank, 5)),
        _ => (Square::new(rank, 0), Square::new(rank, 3)),
    }
}

/// The castling rights that survive a piece leaving or landing on square `i`.
fn castle_mask_at(i: u8) -> (r: CastlingRights)
    ensures
        r.mask() == castle_mask(i as int),
{
    let m: u8 = match i {
        0 => 13,
        7 => 14,
        4 => 12,
        56 => 7,
        63 => 11,
        60 => 3,
        _ => 15,
    };
    CastlingRights::from_u8(m)
}

/// The piece on square `i` in the standard starting position.
pub open spec fn start_piece(i: int) -> Option<Piece> {
    if 8 <= i < 16 {
        Some(piece_of(Color::White, PieceType::Pawn))
    } else if 48 <= i < 56 {
        Some(piece_of(Color::Black, PieceType::Pawn))
    } else if i == 1 || i == 6 {
        Some(piece_of(Color::White, PieceType::Knight))
    } else if i == 57 || i == 62 {
        Some(piece_of(Color::Black, PieceType::Knight))
    } else if i == 2 || i == 5 {
        Some(piece_of(Color::White, PieceType::Bishop))
    } else if i == 58 || i == 61 {
        Some(piece_of(Color::Black, PieceType::Bishop))
    } else if i == 0 || i == 7 {
        Some(piece_of(Color::White, PieceType::Rook))
    } else if i == 56 || i == 63 {
        Some(piece_of(Color::Black, PieceType::Rook))
    } else if i == 3 {
        Some(piece_of(Color::White, PieceType::Queen))
    } else if i == 59 {
        Some(piece_of(Color::Black, PieceType::Queen))
    } else if i == 4 {
        Some(piece_of(Color::White, PieceType::King))
    } else if i == 60 {
        Some(piece_of(Color::Black, PieceType::King))
    } else {
        None
    }
}

/// Which squares each starting-position bitboard holds.
proof fn lemma_start_bits(j: u64)
    by (bit_vector)
    requires
        j < 64,
    ensures
        ((0xff00u64 >> j) & 1 == 1) == (8 <= j < 16),
        ((0x00ff_0000_0000_0000u64 >> j) & 1 == 1) == (48 <= j < 56),
        ((0x42u64 >> j) & 1 == 1) == (j == 1 || j == 6),
        ((0x4200_0000_0000_0000u64 >> j) & 1 == 1) == (j == 57 || j == 62),
        ((0x24u64 >> j) & 1 == 1) == (j == 2 || j == 5),
        ((0x2400_0000_0000_0000u64 >> j) & 1 == 1) == (j == 58 || j == 61),
        ((0x81u64 >> j) & 1 == 1) == (j == 0 || j == 7),
        ((0x8100_0000_0000_0000u64 >> j) & 1 == 1) == (j == 56 || j == 63),
        ((0x08u64 >> j) & 1 == 1) == (j == 3),
        ((0x0800_0000_0000_0000u64 >> j) & 1 == 1) == (j == 59),
        ((0x10u64 >> j) & 1 == 1) == (j == 4),
        ((0x1000_0000_0000_0000u64 >> j) & 1 == 1) == (j == 60),
{
}

/// The starting-position bitboard with byte `p` holds exactly the squares
/// where that piece starts.
proof fn lemma_start_board(p: int, bits: u64)
    requires
        0 <= p < 12,
        bits == (if p == 0 {
            0xff00u64
        } else if p == 1 {
            0x00ff_0000_0000_0000u64
        } else if p == 2 {
            0x42u64
        } else if p == 3 {
            0x4200_0000_0000_0000u64
        } else if p == 4 {
            0x24u64
        } else if p == 5 {
            0x2400_0000_0000_0000u64
        } else if p == 6 {
            0x81u64
        } else if p == 7 {
            0x8100_0000_0000_0000u64
        } else if p == 8 {
            0x08u64
        } else if p == 9 {
            0x0800_0000_0000_0000u64
        } else if p == 10 {
            0x10u64
        } else {
            0x1000_0000_0000_0000u64
        }),
    ensures
        forall|i: int|
            #[trigger] crate::bits::bit(bits, i) == (0 <= i < 64 && start_piece(i) is Some
                && start_piece(i)->0.code() == p),
{
    assert forall|i: int|
        #[trigger] crate::bits::bit(bits, i) == (0 <= i < 64 && start_piece(i) is Some
            && start_piece(i)->0.code() == p) by {
        if 0 <= i < 64 {
            lemma_start_bits(i as u64);
            let pc = start_piece(i);
            if pc is Some {
                pc->0.lemma_code(pc->0, pc->0.code());
            }
            Piece::lemma_code(pc->0, pc->0, 0);
            Piece::lemma_code(pc->0, pc->0, 1);
            Piece::lemma_code(pc->0, pc->0, 2);
            Piece::lemma_code(pc->0, pc->0, 3);
            Piece::lemma_code(pc->0, pc->0, 4);
            Piece::lemma_code(pc->0, pc->0, 5);
            Piece::lemma_code(pc->0, pc->0, 6);
            Piece::lemma_code(pc->0, pc->0, 7);
            Piece::lemma_code(pc->0, pc->0, 8);
            Piece::lemma_code(pc->0, pc->0, 9);
            Piece::lemma_code(pc->0, pc->0, 10);
            Piece::lemma_code(pc->0, pc->0, 11);
        }
    }
}

/// The state needed to revert a [`Board::make_move`].
#[derive(Clone, Copy, Debug)]
pub struct Undo {
    captured_piece: Option<Piece>,
    castling_rights: CastlingRights,
    en_passent: Option<Square>,
    half_move_clock: u8,
}

impl Undo {
    /// The piece that stood on the destination before the move.
    pub closed spec fn spec_captured(self) -> Option<Piece> {
        self.captured_piece
    }

    /// The castling rights before the move.
    pub closed spec fn spec_castling(self) -> CastlingRights {
        self.castling_rights
    }

    /// The en passant target before the move.
    pub closed spec fn spec_ep(self) -> Option<Square> {
        self.en_passent
    }

    /// The half-move clock before the move.
    pub closed spec fn spec_half(self) -> u8 {
        self.half_move_clock
    }
}

impl Board {
    /// The mailbox, square by square.
    pub closed spec fn mailbox(self) -> Seq<Option<Piece>> {
        self.pieces@
    }

    /// The piece bitboards, by packed piece byte.
    pub closed spec fn boards(self) -> Seq<Bitboard> {
        self.bitboards@
    }

    /// The side to move.
    pub closed spec fn spec_side(self) -> Color {
        self.side_to_move
    }

    /// The en passant target square.
    pub closed spec fn spec_ep(self) -> Option<Square> {
        self.en_passent
    }

    /// The castling rights.
    pub closed spec fn spec_castling(self) -> CastlingRights {
        self.castling_rights
    }

    /// The half-move clock.
    pub closed spec fn spec_half(self) -> u8 {
        self.half_move_clock
    }

    /// The full-move counter.
    pub closed spec fn spec_full(self) -> u16 {
        self.full_moves
    }

    /// The board is consistent: every mailbox piece has a valid byte and each
    /// bitboard holds exactly the squares of its piece.
    pub closed spec fn wf(self) -> bool {
        &&& self.pieces@.len() == 64
        &&& forall|i: int|
            0 <= i < 64 && (#[trigger] self.pieces@[i]) is Some ==> self.pieces@[i]->0.code() < 12
        &&& forall|p: int, i: int|
            0 <= p < 12 ==> (#[trigger] self.bitboards@[p]@.contains(i) <==> holds(
                self.pieces@,
                i,
                p,
            ))
    }

    /// Two consistent boards with the same mailbox and game state are equal.
    pub proof fn lemma_ext(a: Board, b: Board)
        requires
            a.wf(),
            b.wf(),
            a.mailbox() == b.mailbox(),
            a.spec_side() == b.spec_side(),
            a.spec_ep() == b.spec_ep(),
            a.spec_castling() == b.spec_castling(),
            a.spec_half() == b.spec_half(),
            a.spec_full() == b.spec_full(),
        ensures
            a == b,
    {
        assert forall|p: int| 0 <= p < 12 implies a.bitboards[p] == b.bitboards[p] by {
            assert(a.bitboards@[p]@ =~= b.bitboards@[p]@);
            Bitboard::lemma_ext(a.bitboards@[p], b.bitboards@[p]);
        }
        assert(a.bitboards =~= b.bitboards);
        assert forall|i: int| 0 <= i < 64 implies a.pieces[i] == b.pieces[i] by {
            assert(a.pieces@[i] == b.pieces@[i]);
        }
        assert(a.pieces =~= b.pieces);
    }

    /// A board with no pieces, white to move, full castling rights, and the
    /// move counters at their initial values.
    pub fn empty() -> (b: Board)
        ensures
            b.wf(),
            b.mailbox() == Seq::new(64, |i: int| None::<Piece>),
            b.spec_side() == Color::White,
            b.spec_ep() is None,
            b.spec_castling().mask() == 15,
            b.spec_half() == 0,
            b.spec_full() == 1,
    {
        let e = Bitboard::empty();
        let b = Board {
            bitboards: [e, e, e, e, e, e, e, e, e, e, e, e],
            en_passent: None,
            castling_rights: CastlingRights::all(),
            side_to_move: Color::White,
            half_move_clock: 0,
            full_moves: 1,
            pieces: [None; 64],
        };
        assert(b.pieces@ =~= Seq::new(64, |i: int| None::<Piece>));
        b
    }

    /// The bitboard of all squares holding `piece`.
    pub fn bitboard_for(&self, piece: Piece) -> (b: &Bitboard)
        requires
            self.wf(),
        ensures
            b@ == Set::new(|i: int| holds(self.mailbox(), i, piece.code() as int)),
    {
        let i = piece.as_u8() as usize;
        let b = &self.bitboards[i];
        assert(b@ =~= Set::new(|j: int| holds(self.mailbox(), j, piece.code() as int)));
        b
    }

    /// The piece on `sq`, if any.
    pub fn piece_at(&self, sq: Square) -> (p: Option<Piece>)
        ensures
            p == self.mailbox()[sq.idx()],
    {
        self.pieces[sq.index() as usize]
    }

    /// The side whose turn it is to move.
    pub fn side_to_move(&self) -> (c: Color)
        ensures
            c == self.spec_side(),
    {
        self.side_to_move
    }

    /// The en passant target square, if the last move was a double pawn push.
    pub fn en_passant(&self) -> (s: Option<Square>)
        ensures
            s == self.spec_ep(),
    {
        self.en_passent
    }

    /// The castling rights still available to either side.
    pub fn castling_rights(&self) -> (r: CastlingRights)
        ensures
            r == self.spec_castling(),
    {
        self.castling_rights
    }

    /// The half-move clock.
    pub fn half_move_clock(&self) -> (h: u8)
        ensures
            h == self.spec_half(),
    {
        self.half_move_clock
    }

    /// The full-move counter.
    pub fn full_moves(&self) -> (f: u16)
        ensures
            f == self.spec_full(),
    {
        self.full_moves
    }

    /// Place a piece on `sq`, replacing any piece already there; the bitboards
    /// and the mailbox are updated together.
    pub fn put_piece(&mut self, sq: Square, piece: Piece)
        requires
            old(self).wf(),
        ensures
            final(self).wf(),
            final(self).mailbox() == old(self).mailbox().update(sq.idx(), Some(piece)),
            final(self).spec_side() == old(self).spec_side(),
            final(self).spec_ep() == old(self).spec_ep(),
            final(self).spec_castling() == old(self).spec_castling(),
            final(self).spec_half() == old(self).spec_half(),
            final(self).spec_full() == old(self).spec_full(),
    {
        let i = sq.index() as usize;
        let ghost s = sq.idx();
        match self.pieces[i] {
            Some(prev) => {
                let c = prev.as_u8() as usize;
                let mut bb = self.bitboards[c];
                bb.clear(sq);
                self.bitboards[c] = bb;
            },
            None => {},
        }
        let c = piece.as_u8() as usize;
        let mut bb = self.bitboards[c];
        bb.set(sq);
        self.bitboards[c] = bb;
        self.pieces[i] = Some(piece);
        assert forall|p: int, j: int|
            0 <= p < 12 implies (#[trigger] self.bitboards@[p]@.contains(j) <==> holds(
            self.pieces@,
            j,
            p,
        )) by {
            self.bitboards@[p].lemma_view_is_bits();
            if 0 <= j < 64 && j != s {
                assert(self.pieces@[j] == old(self).pieces@[j]);
            }
        }
        assert(self.pieces@ =~= old(self).pieces@.update(s, Some(piece)));
    }

    /// Remove whatever piece is on `sq` (if any).
    pub fn remove_piece(&mut self, sq: Square)
        requires
            old(self).wf(),
        ensures
            final(self).wf(),
            final(self).mailbox() == old(self).mailbox().update(sq.idx(), None),
            final(self).spec_side() == old(self).spec_side(),
            final(self).spec_ep() == old(self).spec_ep(),
            final(self).spec_castling() == old(self).spec_castling(),
            final(self).spec_half() == old(self).spec_half(),
            final(self).spec_full() == old(self).spec_full(),
    {
        let i = sq.index() as usize;
        let ghost s = sq.idx();
        match self.pieces[i] {
            Some(prev) => {
                let c = prev.as_u8() as usize;
                let mut bb = self.bitboards[c];
                bb.clear(sq);
                self.bitboards[c] = bb;
                self.pieces[i] = None;
                assert forall|p: int, j: int|
                    0 <= p < 12 implies (#[trigger] self.bitboards@[p]@.contains(j) <==> holds(
                    self.pieces@,
                    j,
                    p,
                )) by {
                    self.bitboards@[p].lemma_view_is_bits();
                    if 0 <= j < 64 && j != s {
                        assert(self.pieces@[j] == old(self).pieces@[j]);
                    }
                }
            },
            None => {},
        }
        assert(self.pieces@ =~= old(self).pieces@.update(s, None));
    }

    /// Apply `mv` in place, returning the [`Undo`] needed to revert it.
    ///
    /// The move is assumed pseudo-legal: its source must hold a piece.
    pub fn make_move(&mut self, mv: Move) -> (undo: Undo)
        requires
            old(self).wf(),
            old(self).mailbox()[mv.src_idx()] is Some,
            !(old(self).mailbox()[mv.src_idx()]->0.spec_piece() == PieceType::Pawn
                || flag_is_capture(mv.spec_flag())) ==> old(self).spec_half() < 255,
            old(self).spec_side() == Color::Black ==> old(self).spec_full() < 65535,
        ensures
            made(*old(self), mv, *final(self), undo),
    {
        let us = self.side_to_move;
        let flag = mv.flag();
        let src = mv.from();
        let dst = mv.to();
        let captured_piece = self.piece_at(dst);
        let undo = Undo {
            captured_piece,
            castling_rights: self.castling_rights,
            en_passent: self.en_passent,
            half_move_clock: self.half_move_clock,
        };
        let mut piece = match self.piece_at(src) {
            Some(p) => p,
            None => {
                assert(false);
                return undo;
            },
        };
        if piece.is_pawn() || flag.is_capture() {
            self.half_move_clock = 0;
        } else {
            self.half_move_clock = self.half_move_clock + 1;
        }
        self.en_passent = None;
        let ghost mb0 = self.mailbox();
        match flag {
            MoveFlag::DoublePawnPush => {
                let ep_rank = 2 + 3 * us.as_u8();
                self.en_passent = Some(Square::new(ep_rank, src.file()));
            },
            MoveFlag::KingCastle | MoveFlag::QueenCastle => {
                let (rook_src, rook_dest) = castle_rook_squares(us, flag);
                self.remove_piece(rook_src);
                self.put_piece(rook_dest, Piece::new(us, PieceType::Rook));
            },
            MoveFlag::EnPassant => {
                let cap_rank = 4 - us.as_u8();
                self.remove_piece(Square::new(cap_rank, dst.file()));
            },
            _ => {
                match flag.promoted_piece() {
                    Some(t) => {
                        piece = Piece::new(us, t);
                    },
                    None => {},
                }
            },
        }
        let k1 = castle_mask_at(src.index());
        let k2 = castle_mask_at(dst.index());
        let keep = k1.intersection(k2);
        self.castling_rights = self.castling_rights.intersection(keep);
        self.remove_piece(src);
        self.remove_piece(dst);
        self.put_piece(dst, piece);
        if us == Color::Black {
            self.full_moves = self.full_moves + 1;
        }
        self.side_to_move = us.flip();
        proof {
            assert(piece == landing_piece(mb0, mv, us));
            assert(self.mailbox() =~= make_mailbox(old(self).mailbox(), mv, us));
        }
        undo
    }

    /// Revert a move applied by [`make_move`](Self::make_move), given its
    /// [`Undo`].
    pub fn unmake_move(&mut self, mv: Move, undo: Undo)
        requires
            old(self).wf(),
            !flag_is_promotion(mv.spec_flag()) ==> old(self).mailbox()[mv.dst_idx()] is Some,
            opponent(old(self).spec_side()) == Color::Black ==> old(self).spec_full() >= 1,
        ensures
            unmade(*old(self), mv, undo, *final(self)),
    {
        self.side_to_move = self.side_to_move.flip();
        let us = self.side_to_move;
        if us == Color::Black {
            self.full_moves = self.full_moves - 1;
        }
        let flag = mv.flag();
        let src = mv.from();
        let dst = mv.to();
        let moved = if flag.is_promotion() {
            Piece::new(us, PieceType::Pawn)
        } else {
            match self.piece_at(dst) {
                Some(p) => p,
                None => {
                    assert(false);
                    Piece::new(us, PieceType::Pawn)
                },
            }
        };
        match flag {
            MoveFlag::KingCastle | MoveFlag::QueenCastle => {
                let (rook_src, rook_dest) = castle_rook_squares(us, flag);
                self.remove_piece(rook_dest);
                self.put_piece(rook_src, Piece::new(us, PieceType::Rook));
            },
            _ => {},
        }
        self.remove_piece(dst);
        self.put_piece(src, moved);
        if flag == MoveFlag::EnPassant {
            let cap_rank: u8 = if us == Color::White {
                4
            } else {
                3
            };
            self.put_piece(Square::new(cap_rank, dst.file()), Piece::new(us.flip(), PieceType::Pawn));
        } else {
            match undo.captured_piece {
                Some(captured) => {
                    self.put_piece(dst, captured);
                },
                None => {},
            }
        }
        self.castling_rights = undo.castling_rights;
        self.en_passent = undo.en_passent;
        self.half_move_clock = undo.half_move_clock;
        proof {
            assert(self.mailbox() =~= unmake_mailbox(
                old(self).mailbox(),
                mv,
                us,
                undo.spec_captured(),
            ));
        }
    }

    /// Every occupied square, regardless of color.
    pub fn occupied(&self) -> (b: Bitboard)
        requires
            self.wf(),
        ensures
            b@ == occupied_squares(self.mailbox()),
    {
        let mut acc = Bitboard::empty();
        let mut k: usize = 0;
        while k < 12
            invariant
                self.wf(),
                k <= 12,
                acc@ == Set::new(
                    |i: int| 0 <= i < 64 && self.pieces@[i] is Some && self.pieces@[i]->0.code() < k,
                ),
            decreases 12 - k,
        {
            acc = acc.or(self.bitboards[k]);
            k = k + 1;
            assert(acc@ =~= Set::new(
                |i: int| 0 <= i < 64 && self.pieces@[i] is Some && self.pieces@[i]->0.code() < k,
            ));
        }
        assert(acc@ =~= occupied_squares(self.mailbox()));
        acc
    }

    /// Every square occupied by a piece of `color`.
    pub fn occupied_by(&self, color: Color) -> (b: Bitboard)
        requires
            self.wf(),
        ensures
            b@ == color_squares(self.mailbox(), color),
    {
        let c = color.as_u8();
        let mut acc = Bitboard::empty();
        let mut pt: u8 = 0;
        while pt < 6
            invariant
                self.wf(),
                pt <= 6,
                c == color_code(color),
                acc@ == Set::new(
                    |i: int|
                        0 <= i < 64 && self.pieces@[i] is Some && self.pieces@[i]->0.code() % 2
                            == c && self.pieces@[i]->0.code() / 2 < pt,
                ),
            decreases 6 - pt,
        {
            let idx = (pt << 1) | c;
            proof {
                crate::bits::lemma_u8_pair(c, pt);
            }
            acc = acc.or(self.bitboards[idx as usize]);
            pt = pt + 1;
            assert(acc@ =~= Set::new(
                |i: int|
                    0 <= i < 64 && self.pieces@[i] is Some && self.pieces@[i]->0.code() % 2 == c
                        && self.pieces@[i]->0.code() / 2 < pt,
            ));
        }
        assert(acc@ =~= color_squares(self.mailbox(), color));
        acc
    }

    /// All occupied squares and their pieces, in square-index order: a1, b1, ... h8.
    pub fn piece_iter(&self) -> (v: Vec<(Square, Piece)>)
        requires
            self.wf(),
        ensures
            forall|k: int|
                0 <= k < v@.len() ==> self.mailbox()[(#[trigger] v@[k]).0.idx()] == Some(v@[k].1),
            forall|k: int, l: int| 0 <= k < l < v@.len() ==> v@[k].0.idx() < v@[l].0.idx(),
            forall|i: int|
                0 <= i < 64 && self.mailbox()[i] is Some ==> exists|k: int|
                    0 <= k < v@.len() && (#[trigger] v@[k]).0.idx() == i,
    {
        let mut v: Vec<(Square, Piece)> = Vec::new();
        let mut i: u8 = 0;
        while i < 64
            invariant
                self.wf(),
                i <= 64,
                forall|k: int|
                    0 <= k < v@.len() ==> self.pieces@[(#[trigger] v@[k]).0.idx()] == Some(v@[k].1)
                        && v@[k].0.idx() < i,
                forall|k: int, l: int| 0 <= k < l < v@.len() ==> v@[k].0.idx() < v@[l].0.idx(),
                forall|j: int|
                    0 <= j < i && self.pieces@[j] is Some ==> exists|k: int|
                        0 <= k < v@.len() && (#[trigger] v@[k]).0.idx() == j,
            decreases 64 - i,
        {
            let ghost v0 = v@;
            match self.pieces[i as usize] {
                Some(p) => {
                    let sq = Square::from_index(i);
                    v.push((sq, p));
                    assert(v@[v@.len() - 1].0.idx() == i);
                },
                None => {},
            }
            proof {
                assert forall|j: int|
                    0 <= j < i + 1 && self.pieces@[j] is Some implies exists|k: int|
                    0 <= k < v@.len() && (#[trigger] v@[k]).0.idx() == j by {
                    if j == i {
                        assert(v@[v@.len() - 1].0.idx() == j);
                    } else {
                        let k = choose|k: int| 0 <= k < v0.len() && (#[trigger] v0[k]).0.idx() == j;
                        assert(v@[k] == v0[k]);
                    }
                }
            }
            i = i + 1;
        }
        v
    }

    /// The standard starting position, built from its twelve bitboards.
    pub fn starting_position() -> (b: Board)
        ensures
            b.wf(),
            b.mailbox() == Seq::new(64, |i: int| start_piece(i)),
            b.spec_side() == Color::White,
            b.spec_ep() is None,
            b.spec_castling().mask() == 15,
            b.spec_half() == 0,
            b.spec_full() == 1,
    {
        let bitboards = [
            Bitboard::from_bits(0x0000_0000_0000_ff00),
            Bitboard::from_bits(0x00ff_0000_0000_0000),
            Bitboard::from_bits(0x0000_0000_0000_0042),
            Bitboard::from_bits(0x4200_0000_0000_0000),
            Bitboard::from_bits(0x0000_0000_0000_0024),
            Bitboard::from_bits(0x2400_0000_0000_0000),
            Bitboard::from_bits(0x0000_0000_0000_0081),
            Bitboard::from_bits(0x8100_0000_0000_0000),
            Bitboard::from_bits(0x0000_0000_0000_0008),
            Bitboard::from_bits(0x0800_0000_0000_0000),
            Bitboard::from_bits(0x0000_0000_0000_0010),
            Bitboard::from_bits(0x1000_0000_0000_0000),
        ];
        proof {
            assert forall|p: int, i: int|
                0 <= p < 12 implies #[trigger] bitboards@[p]@.contains(i) == (0 <= i < 64
                && start_piece(i) is Some && start_piece(i)->0.code() == p) by {
                lemma_start_board(p, bitboards@[p].raw());
                assert(crate::bits::bit(bitboards@[p].raw(), i) == bitboards@[p]@.contains(i));
            }
        }
        let mut pieces: [Option<Piece>; 64] = [None; 64];
        let mut sq: u8 = 0;
        while sq < 64
            invariant
                sq <= 64,
                pieces@.len() == 64,
                forall|p: int, i: int|
                    0 <= p < 12 ==> #[trigger] bitboards@[p]@.contains(i) == (0 <= i < 64
                        && start_piece(i) is Some && start_piece(i)->0.code() == p),
                forall|j: int| 0 <= j < sq ==> #[trigger] pieces@[j] == start_piece(j),
                forall|j: int| sq <= j < 64 ==> #[trigger] pieces@[j] is None,
            decreases 64 - sq,
        {
            let mut idx: u8 = 0;
            let s = Square::from_index(sq);
            while idx < 12
                invariant
                    idx <= 12,
                    sq < 64,
                    s.idx() == sq,
                    pieces@.len() == 64,
                    forall|p: int, i: int|
                        0 <= p < 12 ==> #[trigger] bitboards@[p]@.contains(i) == (0 <= i < 64
                            && start_piece(i) is Some && start_piece(i)->0.code() == p),
                    forall|j: int| 0 <= j < sq ==> #[trigger] pieces@[j] == start_piece(j),
                    forall|j: int| sq < j < 64 ==> #[trigger] pieces@[j] is None,
                    pieces@[sq as int] is None ==> forall|q: int|
                        0 <= q < idx ==> !(#[trigger] bitboards@[q]@.contains(sq as int)),
                    pieces@[sq as int] is Some ==> pieces@[sq as int] == start_piece(sq as int),
                decreases 12 - idx,
            {
                if pieces[sq as usize].is_none() && bitboards[idx as usize].contains(s) {
                    let pc = Piece::from_u8(idx);
                    pieces[sq as usize] = Some(pc);
                    proof {
                        let sp = start_piece(sq as int);
                        sp->0.lemma_code(pc, idx);
                    }
                }
                idx = idx + 1;
            }
            proof {
                let sp = start_piece(sq as int);
                if pieces@[sq as int] is None && sp is Some {
                    lemma_start_codes();
                    assert(bitboards@[sp->0.code() as int]@.contains(sq as int));
                }
            }
            sq = sq + 1;
        }
        let b = Board {
            bitboards,
            en_passent: None,
            castling_rights: CastlingRights::all(),
            side_to_move: Color::White,
            half_move_clock: 0,
            full_moves: 1,
            pieces,
        };
        proof {
            assert(b.pieces@ =~= Seq::new(64, |i: int| start_piece(i)));
            assert forall|i: int| 0 <= i < 64 && (#[trigger] b.pieces@[i]) is Some implies b.pieces@[i]->0.code()
                < 12 by {
                lemma_start_codes();
                assert(b.pieces@[i] == start_piece(i));
            }
        }
        b
    }

    /// Sets the side to move; nothing else changes.
    pub(crate) fn set_side_to_move(&mut self, c: Color)
        ensures
            old(self).wf() ==> final(self).wf(),
            final(self).mailbox() == old(self).mailbox(),
            final(self).spec_ep() == old(self).spec_ep(),
            final(self).spec_castling() == old(self).spec_castling(),
            final(self).spec_half() == old(self).spec_half(),
            final(self).spec_full() == old(self).spec_full(),
            final(self).spec_side() == c,
    {
        self.side_to_move = c;
    }

    /// Sets the castling rights; nothing else changes.
    pub(crate) fn set_castling_rights(&mut self, r: CastlingRights)
        ensures
            old(self).wf() ==> final(self).wf(),
            final(self).mailbox() == old(self).mailbox(),
            final(self).spec_side() == old(self).spec_side(),
            final(self).spec_ep() == old(self).spec_ep(),
            final(self).spec_half() == old(self).spec_half(),
            final(self).spec_full() == old(self).spec_full(),
            final(self).spec_castling() == r,
    {
        self.castling_rights = r;
    }

    /// Sets the en passant target; nothing else changes.
    pub(crate) fn set_en_passant(&mut self, s: Option<Square>)
        ensures
            old(self).wf() ==> final(self).wf(),
            final(self).mailbox() == old(self).mailbox(),
            final(self).spec_side() == old(self).spec_side(),
            final(self).spec_castling() == old(self).spec_castling(),
            final(self).spec_half() == old(self).spec_half(),
            final(self).spec_full() == old(self).spec_full(),
            final(self).spec_ep() == s,
    {
        self.en_passent = s;
    }

    /// Sets the half-move clock; nothing else changes.
    pub(crate) fn set_half_move_clock(&mut self, h: u8)
        ensures
            old(self).wf() ==> final(self).wf(),
            final(self).mailbox() == old(self).mailbox(),
            final(self).spec_side() == old(self).spec_side(),
            final(self).spec_ep() == old(self).spec_ep(),
            final(self).spec_castling() == old(self).spec_castling(),
            final(self).spec_full() == old(self).spec_full(),
            final(self).spec_half() == h,
    {
        self.half_move_clock = h;
    }

    /// Sets the full-move counter; nothing else changes.
    pub(crate) fn set_full_moves(&mut self, f: u16)
        ensures
            old(self).wf() ==> final(self).wf(),
            final(self).mailbox() == old(self).mailbox(),
            final(self).spec_side() == old(self).spec_side(),
            final(self).spec_ep() == old(self).spec_ep(),
            final(self).spec_castling() == old(self).spec_castling(),
            final(self).spec_half() == old(self).spec_half(),
            final(self).spec_full() == f,
    {
        self.full_moves = f;
    }
}

} // verus!
