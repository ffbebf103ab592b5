//! Attack sets: the squares each kind of piece reaches from a square, and
//! which squares a side attacks on a given board.
use vstd::prelude::*;
use crate::board::{Bitboard, Board, Color, Piece, PieceType, Square};
use crate::board::piece::other;

verus! {

/// The distance between two integers.
pub open spec fn dist(a: int, b: int) -> int {
    if a < b {
        b - a
    } else {
        a - b
    }
}

/// The square `df` files and `dr` ranks away from square `s`, if that lies
/// on the board.
pub open spec fn offset(s: int, df: int, dr: int) -> Option<int> {
    let f = s % 8 + df;
    let r = s / 8 + dr;
    if 0 <= f < 8 && 0 <= r < 8 {
        Some(8 * r + f)
    } else {
        None
    }
}

/// A knight on `s` attacks `t`: one file and two ranks away, or two files
/// and one rank.
pub open spec fn knight_step(s: int, t: int) -> bool {
    let df = dist(s % 8, t % 8);
    let dr = dist(s / 8, t / 8);
    &&& 0 <= s < 64
    &&& 0 <= t < 64
    &&& (df == 1 && dr == 2) || (df == 2 && dr == 1)
}

/// A king on `s` attacks `t`: a different square at most one file and one
/// rank away.
pub open spec fn king_step(s: int, t: int) -> bool {
    &&& 0 <= s < 64
    &&& 0 <= t < 64
    &&& s != t
    &&& dist(s % 8, t % 8) <= 1
    &&& dist(s / 8, t / 8) <= 1
}

/// A pawn of color `c` on `s` attacks `t`: one file aside and one rank
/// forward (up the board for White, down for Black).
pub open spec fn pawn_step(c: Color, s: int, t: int) -> bool {
    &&& 0 <= s < 64
    &&& 0 <= t < 64
    &&& dist(s % 8, t % 8) == 1
    &&& t / 8 - s / 8 == (if c == Color::White {
        1int
    } else {
        -1int
    })
}

/// The squares a knight on `s` attacks.
pub open spec fn knight_set(s: int) -> Set<int> {
    Set::new(|t: int| knight_step(s, t))
}

/// The squares a king on `s` attacks.
pub open spec fn king_set(s: int) -> Set<int> {
    Set::new(|t: int| king_step(s, t))
}

/// The squares a pawn of color `c` on `s` attacks.
pub open spec fn pawn_set(c: Color, s: int) -> Set<int> {
    Set::new(|t: int| pawn_step(c, s, t))
}

/// The squares a slider on `s` reaches stepping `(df, dr)` at most `n` times
/// over the occupancy `occ`: every square up to and including the first
/// occupied one, or up to the edge of the board.
pub open spec fn ray(s: int, df: int, dr: int, occ: Set<int>, n: nat) -> Set<int>
    decreases n,
{
    if n == 0 {
        Set::empty()
    } else {
        match offset(s, df, dr) {
            None => Set::empty(),
            Some(t) => if occ.contains(t) {
                set![t]
            } else {
                set![t].union(ray(t, df, dr, occ, (n - 1) as nat))
            },
        }
    }
}

/// The squares a rook on `s` attacks over the occupancy `occ`. Seven steps
/// reach any edge of the board.
pub open spec fn rook_set(s: int, occ: Set<int>) -> Set<int> {
    ray(s, 1, 0, occ, 7).union(ray(s, -1, 0, occ, 7)).union(ray(s, 0, 1, occ, 7)).union(
        ray(s, 0, -1, occ, 7),
    )
}

/// The squares a bishop on `s` attacks over the occupancy `occ`.
pub open spec fn bishop_set(s: int, occ: Set<int>) -> Set<int> {
    ray(s, 1, 1, occ, 7).union(ray(s, 1, -1, occ, 7)).union(ray(s, -1, 1, occ, 7)).union(
        ray(s, -1, -1, occ, 7),
    )
}

/// The squares a queen on `s` attacks over the occupancy `occ`.
pub open spec fn queen_set(s: int, occ: Set<int>) -> Set<int> {
    rook_set(s, occ).union(bishop_set(s, occ))
}

/// Adds to `bb` the square `(df, dr)` away from `sq`, when it is on the
/// board.
pub(crate) fn add_offset(bb: Bitboard, sq: Square, df: i8, dr: i8) -> (r: Bitboard)
    requires
        -8 < df < 8,
        -8 < dr < 8,
    ensures
        0 <= sq.idx() < 64,
        r@ == match offset(sq.idx(), df as int, dr as int) {
            Some(t) => bb@.insert(t),
            None => bb@,
        },
{
    let f = sq.file() as i8 + df;
    let r = sq.rank() as i8 + dr;
    if 0 <= f && f < 8 && 0 <= r && r < 8 {
        let mut out = bb;
        out.set(Square::new_unchecked((r * 8 + f) as u8));
        out
    } else {
        bb
    }
}

/// The squares `offset` reaches from `s` are on the board, with the file
/// and rank moved by the offset.
pub proof fn lemma_offset(s: int, df: int, dr: int)
    requires
        0 <= s < 64,
    ensures
        offset(s, df, dr) matches Some(t) ==> {
            &&& 0 <= t < 64
            &&& t % 8 == s % 8 + df
            &&& t / 8 == s / 8 + dr
        },
        forall|t: int|
            0 <= t < 64 && t % 8 == s % 8 + df && t / 8 == s / 8 + dr ==> offset(s, df, dr)
                == Some(t),
{
}

/// The squares a knight on `sq` attacks.
pub fn knight_attacks(sq: Square) -> (b: Bitboard)
    ensures
        b@ == knight_set(sq.idx()),
{
    let mut b = Bitboard::empty();
    b = add_offset(b, sq, 1, 2);
    b = add_offset(b, sq, 2, 1);
    b = add_offset(b, sq, 2, -1);
    b = add_offset(b, sq, 1, -2);
    b = add_offset(b, sq, -1, -2);
    b = add_offset(b, sq, -2, -1);
    b = add_offset(b, sq, -2, 1);
    b = add_offset(b, sq, -1, 2);
    proof {
        let s = sq.idx();
        lemma_offset(s, 1, 2);
        lemma_offset(s, 2, 1);
        lemma_offset(s, 2, -1);
        lemma_offset(s, 1, -2);
        lemma_offset(s, -1, -2);
        lemma_offset(s, -2, -1);
        lemma_offset(s, -2, 1);
        lemma_offset(s, -1, 2);
        assert(b@ =~= knight_set(s));
    }
    b
}

/// The squares a king on `sq` attacks.
pub fn king_attacks(sq: Square) -> (b: Bitboard)
    ensures
        b@ == king_set(sq.idx()),
{
    let mut b = Bitboard::empty();
    b = add_offset(b, sq, 1, 0);
    b = add_offset(b, sq, 1, 1);
    b = add_offset(b, sq, 0, 1);
    b = add_offset(b, sq, -1, 1);
    b = add_offset(b, sq, -1, 0);
    b = add_offset(b, sq, -1, -1);
    b = add_offset(b, sq, 0, -1);
    b = add_offset(b, sq, 1, -1);
    proof {
        let s = sq.idx();
        lemma_offset(s, 1, 0);
        lemma_offset(s, 1, 1);
        lemma_offset(s, 0, 1);
        lemma_offset(s, -1, 1);
        lemma_offset(s, -1, 0);
        lemma_offset(s, -1, -1);
        lemma_offset(s, 0, -1);
        lemma_offset(s, 1, -1);
        assert(b@ =~= king_set(s));
    }
    b
}

/// The squares a pawn of color `color` on `sq` attacks.
pub fn pawn_attacks(color: Color, sq: Square) -> (b: Bitboard)
    ensures
        b@ == pawn_set(color, sq.idx()),
{
    let dr: i8 = match color {
        Color::White => 1,
        Color::Black => -1,
    };
    let mut b = Bitboard::empty();
    b = add_offset(b, sq, -1, dr);
    b = add_offset(b, sq, 1, dr);
    proof {
        let s = sq.idx();
        lemma_offset(s, -1, dr as int);
        lemma_offset(s, 1, dr as int);
        assert(b@ =~= pawn_set(color, s));
    }
    b
}

/// Adds to `bb` the squares a slider on `sq` reaches stepping `(df, dr)` over
/// the occupancy `occ`.
fn slide(bb: Bitboard, sq: Square, df: i8, dr: i8, occ: Bitboard) -> (r: Bitboard)
    requires
        -1 <= df <= 1,
        -1 <= dr <= 1,
    ensures
        r@ == bb@.union(ray(sq.idx(), df as int, dr as int, occ@, 7)),
{
    let mut acc = bb;
    let mut cur = sq;
    let mut n: u8 = 7;
    while n > 0
        invariant
            n <= 7,
            -1 <= df <= 1,
            -1 <= dr <= 1,
            acc@.union(ray(cur.idx(), df as int, dr as int, occ@, n as nat)) == bb@.union(
                ray(sq.idx(), df as int, dr as int, occ@, 7),
            ),
        decreases n,
    {
        let f = cur.file() as i8 + df;
        let r = cur.rank() as i8 + dr;
        proof {
            lemma_offset(cur.idx(), df as int, dr as int);
        }
        if !(0 <= f && f < 8 && 0 <= r && r < 8) {
            proof {
                assert(ray(cur.idx(), df as int, dr as int, occ@, n as nat) =~= Set::empty());
                assert(acc@.union(Set::empty()) =~= acc@);
            }
            return acc;
        }
        let t = Square::new_unchecked((r * 8 + f) as u8);
        let ghost before = acc@;
        acc.set(t);
        if occ.contains(t) {
            proof {
                assert(ray(cur.idx(), df as int, dr as int, occ@, n as nat) =~= set![t.idx()]);
                assert(before.union(set![t.idx()]) =~= acc@);
            }
            return acc;
        }
        proof {
            assert(before.union(ray(cur.idx(), df as int, dr as int, occ@, n as nat)) =~= acc@.union(
                ray(t.idx(), df as int, dr as int, occ@, (n - 1) as nat),
            ));
        }
        cur = t;
        n = n - 1;
    }
    proof {
        assert(acc@.union(Set::<int>::empty()) =~= acc@);
    }
    acc
}

/// The squares a rook on `sq` attacks over the occupancy `occ`.
pub fn rook_attacks(sq: Square, occ: Bitboard) -> (b: Bitboard)
    ensures
        b@ == rook_set(sq.idx(), occ@),
{
    let mut b = Bitboard::empty();
    b = slide(b, sq, 1, 0, occ);
    b = slide(b, sq, -1, 0, occ);
    b = slide(b, sq, 0, 1, occ);
    b = slide(b, sq, 0, -1, occ);
    assert(b@ =~= rook_set(sq.idx(), occ@));
    b
}

/// The squares a bishop on `sq` attacks over the occupancy `occ`.
pub fn bishop_attacks(sq: Square, occ: Bitboard) -> (b: Bitboard)
    ensures
        b@ == bishop_set(sq.idx(), occ@),
{
    let mut b = Bitboard::empty();
    b = slide(b, sq, 1, 1, occ);
    b = slide(b, sq, 1, -1, occ);
    b = slide(b, sq, -1, 1, occ);
    b = slide(b, sq, -1, -1, occ);
    assert(b@ =~= bishop_set(sq.idx(), occ@));
    b
}

/// The squares a queen on `sq` attacks over the occupancy `occ`.
pub fn queen_attacks(sq: Square, occ: Bitboard) -> (b: Bitboard)
    ensures
        b@ == queen_set(sq.idx(), occ@),
{
    rook_attacks(sq, occ).or(bishop_attacks(sq, occ))
}

/// A piece of kind `k` and color `c` on square `i` attacks square `s` over
/// the occupancy `occ`. A slider on `i` attacks `s` when the line between
/// them is clear, which is when `s`'s own rays of that kind reach `i`.
pub open spec fn attacks_from(k: PieceType, c: Color, i: int, s: int, occ: Set<int>) -> bool {
    match k {
        PieceType::Pawn => pawn_step(c, i, s),
        PieceType::Knight => knight_step(i, s),
        PieceType::Bishop => bishop_set(s, occ).contains(i),
        PieceType::Rook => rook_set(s, occ).contains(i),
        PieceType::Queen => queen_set(s, occ).contains(i),
        PieceType::King => king_step(i, s),
    }
}

/// The occupied squares of a mailbox.
pub open spec fn occupancy(mb: Seq<Option<Piece>>) -> Set<int> {
    Set::new(|i: int| 0 <= i < 64 && mb[i] is Some)
}

/// The squares of the pieces of either color on `mb` that attack `s`, with
/// the sliders seen over the occupancy `occ`.
pub open spec fn attackers(mb: Seq<Option<Piece>>, s: int, occ: Set<int>) -> Set<int> {
    Set::new(
        |i: int|
            0 <= i < 64 && mb[i] is Some && attacks_from(
                mb[i]->0.spec_kind(),
                mb[i]->0.spec_color(),
                i,
                s,
                occ,
            ),
    )
}

/// Square `s` of `mb` is attacked by a piece of color `by`.
pub open spec fn attacked(mb: Seq<Option<Piece>>, s: int, by: Color) -> bool {
    exists|i: int|
        #[trigger] attackers(mb, s, occupancy(mb)).contains(i) && mb[i]->0.spec_color() == by
}

/// Every piece of either color attacking `sq`, with sliders seen over the
/// occupancy `occ` (which may leave out pieces to expose those behind them).
pub fn attackers_to(board: &Board, sq: Square, occ: Bitboard) -> (b: Bitboard)
    requires
        board.layout_ok(),
    ensures
        b@ == attackers(board.spec_mailbox(), sq.idx(), occ@),
{
    let knights = board.pieces(PieceType::Knight);
    let kings = board.pieces(PieceType::King);
    let pawns = board.pieces(PieceType::Pawn);
    let bishops = board.pieces(PieceType::Bishop);
    let rooks = board.pieces(PieceType::Rook);
    let queens = board.pieces(PieceType::Queen);
    let white = board.color(Color::White);
    let black = board.color(Color::Black);
    let b = knight_attacks(sq).and(knights).or(king_attacks(sq).and(kings)).or(
        pawn_attacks(Color::White, sq).and(pawns).and(black),
    ).or(pawn_attacks(Color::Black, sq).and(pawns).and(white)).or(
        rook_attacks(sq, occ).and(rooks.or(queens)),
    ).or(bishop_attacks(sq, occ).and(bishops.or(queens)));
    proof {
        let mb = board.spec_mailbox();
        board.lemma_mailbox_len();
        assert forall|i: int| #[trigger] b@.contains(i) == attackers(mb, sq.idx(), occ@).contains(i) by {
            if 0 <= i < 64 && mb[i] is Some {
                let p = mb[i]->0;
                assert(p.spec_color() == Color::White || p.spec_color() == Color::Black);
            }
        }
        assert(b@ =~= attackers(mb, sq.idx(), occ@));
    }
    b
}

/// A nonempty set has an element.
pub proof fn lemma_witness(s: Set<int>)
    requires
        s != Set::<int>::empty(),
    ensures
        exists|i: int| s.contains(i),
{
    if !(exists|i: int| s.contains(i)) {
        assert(s =~= Set::<int>::empty());
    }
}

/// Whether a piece of color `by` attacks `sq`.
pub fn is_attacked(board: &Board, sq: Square, by: Color) -> (b: bool)
    requires
        board.layout_ok(),
    ensures
        b == attacked(board.spec_mailbox(), sq.idx(), by),
{
    let ghost mb = board.spec_mailbox();
    let ghost occ = occupancy(mb);
    let ghost att = attackers(mb, sq.idx(), occ);
    proof {
        board.lemma_mailbox_len();
    }
    let their = board.color(by);
    let occupied = board.occupied();
    assert(occupied@ =~= occ);
    let knights = board.pieces(PieceType::Knight).and(their);
    let hit_n = knight_attacks(sq).and(knights);
    if !hit_n.is_empty() {
        proof {
            lemma_witness(hit_n@);
            let i = choose|i: int| hit_n@.contains(i);
            assert(att.contains(i));
        }
        return true;
    }
    let pawns = board.pieces(PieceType::Pawn).and(their);
    let hit_p = pawn_attacks(by.flip(), sq).and(pawns);
    if !hit_p.is_empty() {
        proof {
            lemma_witness(hit_p@);
            let i = choose|i: int| hit_p@.contains(i);
            assert(att.contains(i));
        }
        return true;
    }
    let kings = board.pieces(PieceType::King).and(their);
    let hit_k = king_attacks(sq).and(kings);
    if !hit_k.is_empty() {
        proof {
            lemma_witness(hit_k@);
            let i = choose|i: int| hit_k@.contains(i);
            assert(att.contains(i));
        }
        return true;
    }
    let queens = board.pieces(PieceType::Queen).and(their);
    let rooks = board.pieces(PieceType::Rook).and(their);
    let hit_r = rook_attacks(sq, occupied).and(rooks.or(queens));
    if !hit_r.is_empty() {
        proof {
            lemma_witness(hit_r@);
            let i = choose|i: int| hit_r@.contains(i);
            assert(att.contains(i));
        }
        return true;
    }
    let bishops = board.pieces(PieceType::Bishop).and(their);
    let hit_b = bishop_attacks(sq, occupied).and(bishops.or(queens));
    if !hit_b.is_empty() {
        proof {
            lemma_witness(hit_b@);
            let i = choose|i: int| hit_b@.contains(i);
            assert(att.contains(i));
        }
        return true;
    }
    proof {
        assert forall|i: int| att.contains(i) implies mb[i]->0.spec_color() != by by {
            if mb[i]->0.spec_color() == by {
                let k = mb[i]->0.spec_kind();
                if k == PieceType::Knight {
                    assert(hit_n@.contains(i));
                } else if k == PieceType::Pawn {
                    assert(pawn_step(other(by), sq.idx(), i));
                    assert(hit_p@.contains(i));
                } else if k == PieceType::King {
                    assert(hit_k@.contains(i));
                } else if k == PieceType::Rook {
                    assert(hit_r@.contains(i));
                } else if k == PieceType::Bishop {
                    assert(hit_b@.contains(i));
                } else {
                    if rook_set(sq.idx(), occ).contains(i) {
                        assert(hit_r@.contains(i));
                    } else {
                        assert(hit_b@.contains(i));
                    }
                }
            }
        }
    }
    false
}

} // verus!
