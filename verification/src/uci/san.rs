//! Standard algebraic notation, as EPD and PGN write moves: rendering a
//! move, and resolving a written move against a position.

use vstd::prelude::*;
use vstd::utf8::{decode_utf8, valid_utf8};
use vstd::string::StringSliceAdditionalSpecFns;
use crate::board::{Board, Move, MoveType, PieceType, Square};
use crate::board::moves::{type_is_capture, type_promoted_piece};
use crate::movegen::legal::{legal_generated, legal_move, playable};
use crate::movegen::gen::{owns, pseudo_move};
use crate::movegen::list::holds_move;
use crate::movegen::{MoveList, generate_legal};
use crate::text::{ws_len, ws_len_exec};
use crate::uci::{move_bytes, move_bytes_of, push_bytes, text_of};

verus! {

/// The letter of a piece type.
pub open spec fn letter_of(kind: PieceType) -> u8 {
    match kind {
        PieceType::Pawn => 80,
        PieceType::Knight => 78,
        PieceType::Bishop => 66,
        PieceType::Rook => 82,
        PieceType::Queen => 81,
        PieceType::King => 75,
    }
}

/// The file letter of square `i`.
pub open spec fn file_char(i: int) -> u8 {
    (97 + i % 8) as u8
}

/// The rank digit of square `i`.
pub open spec fn rank_char(i: int) -> u8 {
    (49 + i / 8) as u8
}

/// Another piece of kind `kind` on `f2` has a legal move to `mv`'s
/// destination on `b`.
#[verifier::opaque]
pub open spec fn rival(b: Board, mv: Move, kind: PieceType, f2: int) -> bool {
    &&& f2 != mv.from_idx()
    &&& b.spec_mailbox()[f2] is Some
    &&& b.spec_mailbox()[f2]->0.spec_kind() == kind
    &&& exists|ty: MoveType|
        #[trigger] legal_move(b.spec_mailbox(), b.spec_state(), f2, mv.to_idx(), ty)
}

/// Some rival shares `mv`'s origin file.
pub open spec fn file_rival(b: Board, mv: Move, kind: PieceType) -> bool {
    exists|f2: int| #[trigger] rival(b, mv, kind, f2) && f2 % 8 == mv.from_idx() % 8
}

/// Some rival shares `mv`'s origin rank.
pub open spec fn rank_rival(b: Board, mv: Move, kind: PieceType) -> bool {
    exists|f2: int| #[trigger] rival(b, mv, kind, f2) && f2 / 8 == mv.from_idx() / 8
}

/// The shortest origin hint that separates `mv` from the other legal moves
/// of the same piece type to the same square: nothing, the file, the rank,
/// or the whole square.
#[verifier::opaque]
pub open spec fn hint(b: Board, mv: Move, kind: PieceType) -> Seq<u8> {
    let f = mv.from_idx();
    if !(exists|f2: int| #[trigger] rival(b, mv, kind, f2)) {
        Seq::empty()
    } else if !file_rival(b, mv, kind) {
        seq![file_char(f)]
    } else if !rank_rival(b, mv, kind) {
        seq![rank_char(f)]
    } else {
        seq![file_char(f), rank_char(f)]
    }
}

/// A move in standard algebraic notation, without check or mate marks:
/// castling as `O-O` or `O-O-O`; a pawn move as its destination, after its
/// origin file and `x` when it captures; any other piece's move as its
/// letter, the hint that tells it from its rivals, `x` when it captures and
/// the destination; a promotion ends with `=` and the new piece's letter. A
/// move from an empty square is written in UCI notation.
pub open spec fn san_of(b: Board, mv: Move) -> Seq<u8> {
    let ty = mv.spec_type();
    let f = mv.from_idx();
    let t = mv.to_idx();
    let capture = type_is_capture(ty);
    if ty == MoveType::KingCastle {
        seq![79u8, 45, 79]
    } else if ty == MoveType::QueenCastle {
        seq![79u8, 45, 79, 45, 79]
    } else {
        match b.spec_mailbox()[f] {
            None => move_bytes_of(mv),
            Some(p) => {
                let kind = p.spec_kind();
                let head = if kind == PieceType::Pawn {
                    if capture {
                        seq![file_char(f)]
                    } else {
                        Seq::empty()
                    }
                } else {
                    seq![letter_of(kind)] + hint(b, mv, kind)
                };
                head + (if capture {
                    seq![120u8]
                } else {
                    Seq::empty()
                }) + seq![file_char(t), rank_char(t)] + match type_promoted_piece(ty) {
                    Some(k) => seq![61u8, letter_of(k)],
                    None => Seq::empty(),
                }
            },
        }
    }
}

/// Rendering `mv` needs its rivals, and so a board the move generators can
/// play on, only for a piece other than a pawn that does not castle.
pub open spec fn renderable(b: Board, mv: Move) -> bool {
    let ty = mv.spec_type();
    &&& b.wf()
    &&& (ty != MoveType::KingCastle && ty != MoveType::QueenCastle && b.spec_mailbox()[mv.from_idx()]
        is Some && b.spec_mailbox()[mv.from_idx()]->0.spec_kind() != PieceType::Pawn) ==> playable(b)
}

/// The letter of a piece type.
fn letter(kind: PieceType) -> (c: u8)
    ensures
        c == letter_of(kind),
{
    match kind {
        PieceType::Pawn => 80,
        PieceType::Knight => 78,
        PieceType::Bishop => 66,
        PieceType::Rook => 82,
        PieceType::Queen => 81,
        PieceType::King => 75,
    }
}

/// The hint for `mv` (see [`hint`]), found among the legal moves.
#[verifier::rlimit(100)]
#[verifier::spinoff_prover]
fn hint_bytes(board: &Board, mv: Move, kind: PieceType) -> (h: Vec<u8>)
    requires
        playable(*board),
    ensures
        h@ == hint(*board, mv, kind),
{
    let ghost b0 = *board;
    let mut copy = board.duplicate();
    let mut list = MoveList::new();
    proof {
        assert(playable(copy));
    }
    let ghost before = copy;
    generate_legal(&mut copy, &mut list);
    proof {
        lemma_same_legal(before, b0, list@);
    }
    let n = list.len();
    let from = mv.from();
    let to = mv.to();
    let mut any = false;
    let mut same_file = false;
    let mut same_rank = false;
    let mut i: usize = 0;
    while i < n
        invariant
            i <= n,
            n == list@.len(),
            b0 == *board,
            playable(b0),
            from.idx() == mv.from_idx(),
            to.idx() == mv.to_idx(),
            legal_generated(b0, Seq::empty(), list@),
            any <==> exists|j: int| 0 <= j < i && rival(b0, mv, kind, #[trigger] list@[j].from_idx())
                && list@[j].to_idx() == mv.to_idx(),
            same_file <==> exists|j: int|
                0 <= j < i && rival(b0, mv, kind, #[trigger] list@[j].from_idx()) && list@[j].to_idx()
                    == mv.to_idx() && list@[j].from_idx() % 8 == mv.from_idx() % 8,
            same_rank <==> exists|j: int|
                0 <= j < i && rival(b0, mv, kind, #[trigger] list@[j].from_idx()) && list@[j].to_idx()
                    == mv.to_idx() && list@[j].from_idx() / 8 == mv.from_idx() / 8,
        decreases n - i,
    {
        let other = list.get(i);
        proof {
            assert(list@[i as int] == other);
            assert(legal_move(
                b0.spec_mailbox(),
                b0.spec_state(),
                other.from_idx(),
                other.to_idx(),
                other.spec_type(),
            ));
            board.lemma_mailbox_len();
        }
        let of = other.from();
        let ot = other.to();
        let is_rival = ot.index() == to.index() && of.index() != from.index() && match board.piece_on(
            of,
        ) {
            Some(p) => p.piece_type() == kind,
            None => false,
        };
        proof {
            if ot.idx() == to.idx() {
                reveal(rival);
                assert(is_rival == rival(b0, mv, kind, other.from_idx()));
            }
        }
        if is_rival {
            any = true;
            if of.file() == from.file() {
                same_file = true;
            }
            if of.rank() == from.rank() {
                same_rank = true;
            }
        }
        i = i + 1;
    }
    proof {
        let f = mv.from_idx();
        let t = mv.to_idx();
        reveal(hint);
        assert forall|f2: int| #[trigger] rival(b0, mv, kind, f2) implies exists|j: int|
            0 <= j < n && list@[j].from_idx() == f2 && list@[j].to_idx() == t by {
            reveal(rival);
            let ty = choose|ty: MoveType| #[trigger] legal_move(b0.spec_mailbox(), b0.spec_state(), f2, t, ty);
            assert(holds_move(list@, 0, n as int, f2, t, ty));
        }
        if exists|f2: int| #[trigger] rival(b0, mv, kind, f2) {
            let f2 = choose|f2: int| #[trigger] rival(b0, mv, kind, f2);
            let j = choose|j: int| 0 <= j < n && list@[j].from_idx() == f2 && list@[j].to_idx() == t;
            assert(rival(b0, mv, kind, list@[j].from_idx()));
        }
        if file_rival(b0, mv, kind) {
            let f2 = choose|f2: int| #[trigger] rival(b0, mv, kind, f2) && f2 % 8 == f % 8;
            let j = choose|j: int| 0 <= j < n && list@[j].from_idx() == f2 && list@[j].to_idx() == t;
            assert(rival(b0, mv, kind, list@[j].from_idx()));
        }
        if rank_rival(b0, mv, kind) {
            let f2 = choose|f2: int| #[trigger] rival(b0, mv, kind, f2) && f2 / 8 == f / 8;
            let j = choose|j: int| 0 <= j < n && list@[j].from_idx() == f2 && list@[j].to_idx() == t;
            assert(rival(b0, mv, kind, list@[j].from_idx()));
        }
        if same_file {
            let j = choose|j: int|
                0 <= j < n && rival(b0, mv, kind, #[trigger] list@[j].from_idx()) && list@[j].to_idx()
                    == t && list@[j].from_idx() % 8 == f % 8;
            assert(file_rival(b0, mv, kind));
        }
        if same_rank {
            let j = choose|j: int|
                0 <= j < n && rival(b0, mv, kind, #[trigger] list@[j].from_idx()) && list@[j].to_idx()
                    == t && list@[j].from_idx() / 8 == f / 8;
            assert(rank_rival(b0, mv, kind));
        }
    }
    let mut h: Vec<u8> = Vec::new();
    if !any {
        proof {
            reveal(hint);
            assert(h@ =~= hint(b0, mv, kind));
        }
        return h;
    }
    let file_c = 97 + from.file();
    let rank_c = 49 + from.rank();
    if !same_file {
        h.push(file_c);
    } else if !same_rank {
        h.push(rank_c);
    } else {
        h.push(file_c);
        h.push(rank_c);
    }
    proof {
        reveal(hint);
        assert(h@ =~= hint(b0, mv, kind));
    }
    h
}

/// The bytes of a move in standard algebraic notation (see [`san_of`]).
pub fn san_bytes(board: &Board, mv: Move) -> (s: Vec<u8>)
    requires
        renderable(*board, mv),
    ensures
        s@ == san_of(*board, mv),
{
    let mut out: Vec<u8> = Vec::new();
    match mv.move_type() {
        MoveType::KingCastle => {
            push_bytes(&mut out, &[79u8, 45, 79]);
            assert(out@ =~= san_of(*board, mv));
            return out;
        },
        MoveType::QueenCastle => {
            push_bytes(&mut out, &[79u8, 45, 79, 45, 79]);
            assert(out@ =~= san_of(*board, mv));
            return out;
        },
        _ => {},
    }
    proof {
        board.lemma_mailbox_len();
    }
    let piece = match board.piece_on(mv.from()) {
        Some(p) => p,
        None => {
            return move_bytes(mv);
        },
    };
    let kind = piece.piece_type();
    let from = mv.from();
    let to = mv.to();
    let capture = mv.is_capture();
    if kind == PieceType::Pawn {
        if capture {
            out.push(97 + from.file());
        }
    } else {
        out.push(letter(kind));
        let h = hint_bytes(board, mv, kind);
        push_bytes(&mut out, h.as_slice());
    }
    if capture {
        out.push(120);
    }
    out.push(97 + to.file());
    out.push(49 + to.rank());
    match mv.promoted_piece() {
        Some(k) => {
            out.push(61);
            out.push(letter(k));
        },
        None => {},
    }
    assert(out@ =~= san_of(*board, mv));
    out
}

/// Returns a move in standard algebraic notation (see [`san_of`]), as EPD
/// and PGN write it.
pub fn san_text(board: &Board, mv: Move) -> (s: String)
    requires
        renderable(*board, mv),
    ensures
        valid_utf8(san_of(*board, mv)) ==> s@ == decode_utf8(san_of(*board, mv)),
{
    text_of(san_bytes(board, mv).as_slice())
}

/// `s` without the whitespace at its start (see [`ws_len`]).
pub open spec fn trim_start(s: Seq<u8>) -> Seq<u8>
    decreases s.len(),
{
    if s.len() > 0 && ws_len(s, 0) > 0 {
        trim_start(s.subrange(ws_len(s, 0), s.len() as int))
    } else {
        s
    }
}

/// The length of the whitespace character that ends `s`, or 0.
pub open spec fn ws_end(s: Seq<u8>) -> int {
    let n = s.len() as int;
    if n >= 1 && ws_len(s, n - 1) == 1 {
        1
    } else if n >= 2 && ws_len(s, n - 2) == 2 {
        2
    } else if n >= 3 && ws_len(s, n - 3) == 3 {
        3
    } else {
        0
    }
}

/// `s` without the whitespace at its end.
pub open spec fn trim_end(s: Seq<u8>) -> Seq<u8>
    decreases s.len(),
{
    if ws_end(s) > 0 {
        trim_end(s.subrange(0, s.len() - ws_end(s)))
    } else {
        s
    }
}

/// `s` with the whitespace at either end removed.
pub open spec fn trimmed(s: Seq<u8>) -> Seq<u8> {
    trim_end(trim_start(s))
}

/// A byte that names no move: check, mate and annotation marks, the
/// separators inside castling, and spaces.
pub open spec fn is_mark(c: u8) -> bool {
    c == 43 || c == 35 || c == 33 || c == 63 || c == 61 || c == 45 || c == 32
}

/// `s` without its marks (see [`is_mark`]).
pub open spec fn unmarked(s: Seq<u8>) -> Seq<u8>
    decreases s.len(),
{
    if s.len() == 0 {
        Seq::empty()
    } else {
        unmarked(s.drop_last()) + (if is_mark(s.last()) {
            Seq::empty()
        } else {
            seq![s.last()]
        })
    }
}

/// `s` without a trailing `e.p.`.
pub open spec fn without_ep(s: Seq<u8>) -> Seq<u8> {
    let n = s.len() as int;
    if n >= 4 && s.subrange(n - 4, n) == seq![101u8, 46, 112, 46] {
        s.subrange(0, n - 4)
    } else {
        s
    }
}

/// What identifies a written move: the text trimmed, without a trailing
/// `e.p.` and without marks (see [`is_mark`]), with a castling written in
/// zeros (`0-0`) spelled in letters (`O-O`).
#[verifier::opaque]
pub open spec fn normalized(s: Seq<u8>) -> Seq<u8> {
    let u = unmarked(without_ep(trimmed(s)));
    if u.len() > 0 && (forall|i: int| 0 <= i < u.len() ==> u[i] == 48) {
        Seq::new(u.len(), |i: int| 79u8)
    } else {
        u
    }
}

/// `s` trimmed (see [`trimmed`]), as the bounds `(a, b)` of the trimmed
/// part.
fn trim_bounds(s: &[u8]) -> (r: (usize, usize))
    ensures
        r.0 <= r.1 <= s@.len(),
        s@.subrange(r.0 as int, r.1 as int) == trimmed(s@),
{
    let n = s.len();
    let mut a: usize = 0;
    proof {
        assert(s@.subrange(0, n as int) =~= s@);
    }
    while a < n && ws_len_exec(s, a) > 0
        invariant
            a <= n,
            n == s@.len(),
            trim_start(s@) == trim_start(s@.subrange(a as int, n as int)),
        decreases n - a,
    {
        let k = ws_len_exec(s, a);
        proof {
            let sub = s@.subrange(a as int, n as int);
            assert(ws_len(sub, 0) == k);
            assert(sub.subrange(k as int, sub.len() as int) =~= s@.subrange(a + k, n as int));
        }
        a = a + k;
    }
    proof {
        let sub = s@.subrange(a as int, n as int);
        if a < n {
            assert(ws_len(sub, 0) == ws_len(s@, a as int));
        }
        assert(trim_start(sub) == sub);
    }
    let mut b: usize = n;
    while b > a && end_ws(s, a, b) > 0
        invariant
            a <= b <= n,
            n == s@.len(),
            trim_end(s@.subrange(a as int, n as int)) == trim_end(s@.subrange(a as int, b as int)),
        decreases b,
    {
        let k = end_ws(s, a, b);
        proof {
            let sub = s@.subrange(a as int, b as int);
            assert(sub.subrange(0, sub.len() - k) =~= s@.subrange(a as int, b - k));
        }
        b = b - k;
    }
    proof {
        assert(s@.subrange(a as int, b as int) =~= trimmed(s@));
    }
    (a, b)
}

/// `s` trimmed (see [`trimmed`]).
pub(crate) fn trim_bytes(s: &[u8]) -> (r: Vec<u8>)
    ensures
        r@ == trimmed(s@),
{
    let (a, b) = trim_bounds(s);
    let mut r: Vec<u8> = Vec::new();
    let mut i = a;
    while i < b
        invariant
            a <= i <= b <= s@.len(),
            r@ == s@.subrange(a as int, i as int),
        decreases b - i,
    {
        r.push(s[i]);
        i = i + 1;
        assert(r@ =~= s@.subrange(a as int, i as int));
    }
    r
}

/// The normalized form of `s` (see [`normalized`]).
fn normalize(s: &[u8]) -> (r: Vec<u8>)
    ensures
        r@ == normalized(s@),
{
    proof {
        reveal(normalized);
    }
    let (a, b) = trim_bounds(s);
    let mut b = b;
    let ghost t = s@.subrange(a as int, b as int);
    proof {
        assert(t =~= trimmed(s@));
    }
    if b - a >= 4 && s[b - 4] == 101 && s[b - 3] == 46 && s[b - 2] == 112 && s[b - 1] == 46 {
        b = b - 4;
        proof {
            let m = t.len() as int;
            assert(t.subrange(m - 4, m) =~= seq![101u8, 46, 112, 46]);
            assert(s@.subrange(a as int, b as int) =~= without_ep(t));
        }
    } else {
        proof {
            let m = t.len() as int;
            if m >= 4 && t.subrange(m - 4, m) == seq![101u8, 46, 112, 46] {
                assert(t.subrange(m - 4, m)[0] == s@[b - 4]);
                assert(t.subrange(m - 4, m)[1] == s@[b - 3]);
                assert(t.subrange(m - 4, m)[2] == s@[b - 2]);
                assert(t.subrange(m - 4, m)[3] == s@[b - 1]);
            }
            assert(s@.subrange(a as int, b as int) =~= without_ep(t));
        }
    }
    let ghost v = s@.subrange(a as int, b as int);
    let mut out: Vec<u8> = Vec::new();
    let mut zeros = true;
    let mut i = a;
    while i < b
        invariant
            a <= i <= b <= s@.len(),
            v == s@.subrange(a as int, b as int),
            out@ == unmarked(v.subrange(0, i - a)),
            zeros <==> (forall|k: int| 0 <= k < out@.len() ==> out@[k] == 48),
        decreases b - i,
    {
        let c = s[i];
        let ghost before = out@;
        proof {
            let prefix = v.subrange(0, i + 1 - a);
            assert(prefix.drop_last() =~= v.subrange(0, i - a));
            assert(prefix.last() == c);
        }
        if !(c == 43 || c == 35 || c == 33 || c == 63 || c == 61 || c == 45 || c == 32) {
            out.push(c);
            proof {
                assert(out@ == before.push(c));
                assert(forall|k: int| 0 <= k < before.len() ==> out@[k] == before[k]);
                assert(out@[before.len() as int] == c);
            }
            if c != 48 {
                zeros = false;
            }
        }
        i = i + 1;
    }
    proof {
        assert(v.subrange(0, b - a) =~= v);
        reveal(normalized);
    }
    if out.len() > 0 && zeros {
        let m = out.len();
        let mut letters: Vec<u8> = Vec::new();
        let mut k: usize = 0;
        while k < m
            invariant
                k <= m,
                letters@ == Seq::new(k as nat, |j: int| 79u8),
            decreases m - k,
        {
            letters.push(79);
            k = k + 1;
            assert(letters@ =~= Seq::new(k as nat, |j: int| 79u8));
        }
        return letters;
    }
    out
}

/// The length of the whitespace character that ends `s[a..b]`, or 0 (see
/// [`ws_end`]).
fn end_ws(s: &[u8], a: usize, b: usize) -> (k: usize)
    requires
        a < b <= s@.len(),
    ensures
        k == ws_end(s@.subrange(a as int, b as int)),
        k <= b - a,
{
    let ghost sub = s@.subrange(a as int, b as int);
    if ws_len_exec(s, b - 1) == 1 {
        proof {
            assert(ws_len(sub, sub.len() - 1) == ws_len(s@, b - 1));
        }
        return 1;
    }
    proof {
        assert(ws_len(sub, sub.len() - 1) == 0 || ws_len(sub, sub.len() - 1) == ws_len(s@, b - 1));
        assert(sub[sub.len() - 1] == s@[b - 1]);
    }
    if b - a >= 2 && ws_len_exec(s, b - 2) == 2 {
        proof {
            assert(sub[sub.len() - 2] == s@[b - 2]);
        }
        return 2;
    }
    proof {
        if b - a >= 2 {
            assert(sub[sub.len() - 2] == s@[b - 2]);
        }
    }
    if b - a >= 3 && ws_len_exec(s, b - 3) == 3 {
        proof {
            assert(sub[sub.len() - 3] == s@[b - 3]);
            assert(sub[sub.len() - 2] == s@[b - 2]);
        }
        return 3;
    }
    proof {
        if b - a >= 3 {
            assert(sub[sub.len() - 3] == s@[b - 3]);
            assert(sub[sub.len() - 2] == s@[b - 2]);
        }
    }
    0
}

/// Whether two byte strings are equal.
fn same_bytes(a: &Vec<u8>, b: &Vec<u8>) -> (r: bool)
    ensures
        r == (a@ == b@),
{
    if a.len() != b.len() {
        return false;
    }
    let mut i: usize = 0;
    while i < a.len()
        invariant
            a@.len() == b@.len(),
            i <= a@.len(),
            forall|j: int| 0 <= j < i ==> a@[j] == b@[j],
        decreases a@.len() - i,
    {
        if a[i] != b[i] {
            return false;
        }
        i = i + 1;
    }
    assert(a@ =~= b@);
    true
}

/// Resolves a move written in standard algebraic notation against a
/// position: the legal move whose notation normalizes (see [`normalized`])
/// to what `san` normalizes to (there is at most one, see
/// [`lemma_san_round_trip`]). `None` when `san` normalizes to nothing or no
/// legal move matches.
pub fn parse_san(board: &Board, san: &str) -> (m: Option<Move>)
    requires
        playable(*board),
    ensures
        m matches Some(mv) ==> legal_move(
            board.spec_mailbox(),
            board.spec_state(),
            mv.from_idx(),
            mv.to_idx(),
            mv.spec_type(),
        ) && normalized(san_of(*board, mv)) == normalized(san.spec_bytes()) && normalized(
            san.spec_bytes(),
        ).len() > 0,
        m is None ==> normalized(san.spec_bytes()).len() == 0 || forall|mv: Move|
            legal_move(
                board.spec_mailbox(),
                board.spec_state(),
                mv.from_idx(),
                mv.to_idx(),
                mv.spec_type(),
            ) ==> normalized(#[trigger] san_of(*board, mv)) != normalized(san.spec_bytes()),
        forall|mv: Move|
            legal_move(
                board.spec_mailbox(),
                board.spec_state(),
                mv.from_idx(),
                mv.to_idx(),
                mv.spec_type(),
            ) && normalized(#[trigger] san_of(*board, mv)) == normalized(san.spec_bytes()) ==> (m matches Some(
                found,
            ) && found.from_idx() == mv.from_idx() && found.to_idx() == mv.to_idx() && found.spec_type()
                == mv.spec_type()),
{
    let ghost b0 = *board;
    let wanted = normalize(san.as_bytes());
    if wanted.len() == 0 {
        proof {
            assert forall|mv: Move|
                legal_move(
                    b0.spec_mailbox(),
                    b0.spec_state(),
                    mv.from_idx(),
                    mv.to_idx(),
                    mv.spec_type(),
                ) implies normalized(#[trigger] san_of(b0, mv)) != normalized(san.spec_bytes()) by {
                lemma_normalized_san(b0, mv);
            }
        }
        return None;
    }
    let mut copy = board.duplicate();
    let mut list = MoveList::new();
    proof {
        assert(playable(copy));
    }
    let ghost before = copy;
    generate_legal(&mut copy, &mut list);
    proof {
        lemma_same_legal(before, b0, list@);
    }
    let n = list.len();
    let mut i: usize = 0;
    while i < n
        invariant
            i <= n,
            n == list@.len(),
            b0 == *board,
            playable(b0),
            wanted@ == normalized(san.spec_bytes()),
            wanted@.len() > 0,
            legal_generated(b0, Seq::empty(), list@),
            forall|j: int| 0 <= j < i ==> normalized(san_of(b0, #[trigger] list@[j])) != wanted@,
        decreases n - i,
    {
        let mv = list.get(i);
        proof {
            assert(list@[i as int] == mv);
            assert(legal_move(
                b0.spec_mailbox(),
                b0.spec_state(),
                mv.from_idx(),
                mv.to_idx(),
                mv.spec_type(),
            ));
            b0.lemma_mailbox_len();
        }
        let text = san_bytes(board, mv);
        let got = normalize(text.as_slice());
        if same_bytes(&got, &wanted) {
            proof {
                assert forall|m2: Move|
                    legal_move(
                        b0.spec_mailbox(),
                        b0.spec_state(),
                        m2.from_idx(),
                        m2.to_idx(),
                        m2.spec_type(),
                    ) && normalized(#[trigger] san_of(b0, m2)) == normalized(san.spec_bytes()) implies mv.from_idx()
                    == m2.from_idx() && mv.to_idx() == m2.to_idx() && mv.spec_type() == m2.spec_type() by {
                    lemma_san_round_trip(b0, mv, m2);
                }
            }
            return Some(mv);
        }
        i = i + 1;
    }
    proof {
        assert forall|mv: Move|
            legal_move(
                b0.spec_mailbox(),
                b0.spec_state(),
                mv.from_idx(),
                mv.to_idx(),
                mv.spec_type(),
            ) implies normalized(#[trigger] san_of(b0, mv)) != normalized(san.spec_bytes()) by {
            assert(holds_move(list@, 0, n as int, mv.from_idx(), mv.to_idx(), mv.spec_type()));
            let j = choose|j: int|
                0 <= j < n && #[trigger] list@[j].from_idx() == mv.from_idx() && list@[j].to_idx()
                    == mv.to_idx() && list@[j].spec_type() == mv.spec_type();
            lemma_san_fields(b0, list@[j], mv);
        }
    }
    None
}

/// Two boards holding the same position have the same legal moves.
proof fn lemma_same_legal(a: Board, b: Board, list: Seq<Move>)
    requires
        Board::same_position(a, b),
        legal_generated(a, Seq::empty(), list),
    ensures
        legal_generated(b, Seq::empty(), list),
{
    assert(a.spec_mailbox() == b.spec_mailbox());
    assert(a.spec_state() == b.spec_state());
    let pa = |f: int, t: int, ty: MoveType| legal_move(a.spec_mailbox(), a.spec_state(), f, t, ty);
    let pb = |f: int, t: int, ty: MoveType| legal_move(b.spec_mailbox(), b.spec_state(), f, t, ty);
    assert(pa == pb);
}

/// A move's notation depends only on its origin, destination and type.
proof fn lemma_san_fields(b: Board, m1: Move, m2: Move)
    requires
        m1.from_idx() == m2.from_idx(),
        m1.to_idx() == m2.to_idx(),
        m1.spec_type() == m2.spec_type(),
    ensures
        san_of(b, m1) == san_of(b, m2),
{
    assert(move_bytes_of(m1) == move_bytes_of(m2));
    if b.spec_mailbox()[m1.from_idx()] is Some {
        let kind = b.spec_mailbox()[m1.from_idx()]->0.spec_kind();
        lemma_hint_fields(b, m1, m2, kind);
    }
}

/// A move's hint depends only on its origin and destination.
proof fn lemma_hint_fields(b: Board, m1: Move, m2: Move, kind: PieceType)
    requires
        m1.from_idx() == m2.from_idx(),
        m1.to_idx() == m2.to_idx(),
    ensures
        hint(b, m1, kind) == hint(b, m2, kind),
{
    reveal(hint);
    assert forall|f2: int| #[trigger] rival(b, m1, kind, f2) == rival(b, m2, kind, f2) by {
        reveal(rival);
    }
    if exists|f2: int| #[trigger] rival(b, m1, kind, f2) {
        let f2 = choose|f2: int| #[trigger] rival(b, m1, kind, f2);
        assert(rival(b, m2, kind, f2));
    }
    if exists|f2: int| #[trigger] rival(b, m2, kind, f2) {
        let f2 = choose|f2: int| #[trigger] rival(b, m2, kind, f2);
        assert(rival(b, m1, kind, f2));
    }
    if file_rival(b, m1, kind) {
        let f2 = choose|f2: int| #[trigger] rival(b, m1, kind, f2) && f2 % 8 == m1.from_idx() % 8;
        assert(rival(b, m2, kind, f2));
    }
    if file_rival(b, m2, kind) {
        let f2 = choose|f2: int| #[trigger] rival(b, m2, kind, f2) && f2 % 8 == m2.from_idx() % 8;
        assert(rival(b, m1, kind, f2));
    }
    if rank_rival(b, m1, kind) {
        let f2 = choose|f2: int| #[trigger] rival(b, m1, kind, f2) && f2 / 8 == m1.from_idx() / 8;
        assert(rival(b, m2, kind, f2));
    }
    if rank_rival(b, m2, kind) {
        let f2 = choose|f2: int| #[trigger] rival(b, m2, kind, f2) && f2 / 8 == m2.from_idx() / 8;
        assert(rival(b, m1, kind, f2));
    }
}


/// The file letter and rank digit of a square, as numbers.
proof fn lemma_square_chars(i: int)
    requires
        0 <= i < 64,
    ensures
        file_char(i) == 97 + i % 8,
        rank_char(i) == 49 + i / 8,
        97 <= file_char(i) <= 104,
        49 <= rank_char(i) <= 56,
{
}

/// Two moves of one kind of piece to one square from different squares,
/// each the other's rival, get different hints.
proof fn lemma_hints_differ(b: Board, m1: Move, m2: Move, kind: PieceType)
    requires
        m1.from_idx() != m2.from_idx(),
        m1.to_idx() == m2.to_idx(),
        0 <= m1.from_idx() < 64,
        0 <= m2.from_idx() < 64,
        rival(b, m1, kind, m2.from_idx()),
        rival(b, m2, kind, m1.from_idx()),
    ensures
        hint(b, m1, kind) != hint(b, m2, kind),
{
    reveal(hint);
    let f1 = m1.from_idx();
    let f2 = m2.from_idx();
    lemma_square_chars(f1);
    lemma_square_chars(f2);
    let h1 = hint(b, m1, kind);
    let h2 = hint(b, m2, kind);
    let fr1 = file_rival(b, m1, kind);
    let fr2 = file_rival(b, m2, kind);
    let rr1 = rank_rival(b, m1, kind);
    let rr2 = rank_rival(b, m2, kind);
    if f2 % 8 == f1 % 8 {
        assert(rival(b, m1, kind, f2) && f2 % 8 == f1 % 8);
        assert(rival(b, m2, kind, f1) && f1 % 8 == f2 % 8);
    }
    if f2 / 8 == f1 / 8 {
        assert(rival(b, m1, kind, f2) && f2 / 8 == f1 / 8);
        assert(rival(b, m2, kind, f1) && f1 / 8 == f2 / 8);
        assert(f1 == 8 * (f1 / 8) + f1 % 8);
        assert(f2 == 8 * (f2 / 8) + f2 % 8);
    }
    assert(exists|x: int| #[trigger] rival(b, m1, kind, x));
    assert(exists|x: int| #[trigger] rival(b, m2, kind, x));
    if h1 == h2 {
        if !fr1 {
            assert(h1 == seq![file_char(f1)]);
            assert(f2 % 8 != f1 % 8);
            if !fr2 {
                assert(h2 == seq![file_char(f2)]);
                assert(h1[0] == h2[0]);
            } else if !rr2 {
                assert(h2 == seq![rank_char(f2)]);
                assert(h1[0] == h2[0]);
            } else {
                assert(h2.len() == 2);
            }
        } else if !rr1 {
            assert(h1 == seq![rank_char(f1)]);
            assert(f2 / 8 != f1 / 8);
            if !fr2 {
                assert(h2 == seq![file_char(f2)]);
                assert(h1[0] == h2[0]);
            } else if !rr2 {
                assert(h2 == seq![rank_char(f2)]);
                assert(h1[0] == h2[0]);
            } else {
                assert(h2.len() == 2);
            }
        } else {
            assert(h1 == seq![file_char(f1), rank_char(f1)]);
            if !fr2 {
                assert(h2.len() == 1);
            } else if !rr2 {
                assert(h2.len() == 1);
            } else {
                assert(h2 == seq![file_char(f2), rank_char(f2)]);
                assert(h1[0] == h2[0] && h1[1] == h2[1]);
                assert(f1 == 8 * (f1 / 8) + f1 % 8);
                assert(f2 == 8 * (f2 / 8) + f2 % 8);
            }
        }
    }
}

/// Promotions to the same piece that agree on capturing are one type.
proof fn lemma_promo_type(y1: MoveType, y2: MoveType)
    requires
        crate::board::moves::type_is_promotion(y1),
        crate::board::moves::type_is_promotion(y2),
        type_is_capture(y1) == type_is_capture(y2),
        type_promoted_piece(y1) == type_promoted_piece(y2),
    ensures
        y1 == y2,
{
}

/// What [`san_of`] writes for a move that does not castle, made by the
/// piece of kind `k` on its origin: the head, an `x` for a capture, the
/// destination and the promotion.
pub open spec fn san_parts(b: Board, mv: Move, k: PieceType) -> Seq<u8> {
    let ty = mv.spec_type();
    let f = mv.from_idx();
    let t = mv.to_idx();
    let capture = type_is_capture(ty);
    let head = if k == PieceType::Pawn {
        if capture {
            seq![file_char(f)]
        } else {
            Seq::empty()
        }
    } else {
        seq![letter_of(k)] + hint(b, mv, k)
    };
    head + (if capture {
        seq![120u8]
    } else {
        Seq::empty()
    }) + seq![file_char(t), rank_char(t)] + match type_promoted_piece(ty) {
        Some(q) => seq![61u8, letter_of(q)],
        None => Seq::empty(),
    }
}

/// A hint is at most a file letter and a rank digit.
proof fn lemma_hint_len(b: Board, mv: Move, k: PieceType)
    ensures
        hint(b, mv, k).len() <= 2,
{
    reveal(hint);
}

/// The shape of a legal move's notation: castling in letters, and
/// otherwise a first byte telling pawns (a file letter) from pieces (their
/// letter), then the destination and the promotion, read from the end.
proof fn lemma_san_shape(b: Board, m: Move)
    requires
        playable(b),
        legal_move(b.spec_mailbox(), b.spec_state(), m.from_idx(), m.to_idx(), m.spec_type()),
    ensures
        m.spec_type() == MoveType::KingCastle ==> san_of(b, m) == seq![79u8, 45, 79],
        m.spec_type() == MoveType::QueenCastle ==> san_of(b, m) == seq![79u8, 45, 79, 45, 79],
        m.spec_type() != MoveType::KingCastle && m.spec_type() != MoveType::QueenCastle ==> {
            let mb = b.spec_mailbox();
            let s = san_of(b, m);
            let n = s.len() as int;
            let t = m.to_idx();
            &&& mb[m.from_idx()] is Some
            &&& mb[m.from_idx()]->0.spec_color() == b.spec_state().spec_side()
            &&& s == san_parts(b, m, mb[m.from_idx()]->0.spec_kind())
            &&& n >= 2
            &&& s[0] != 79
            &&& (mb[m.from_idx()]->0.spec_kind() == PieceType::Pawn) == (s[0] >= 97)
            &&& mb[m.from_idx()]->0.spec_kind() != PieceType::Pawn ==> s[0] == letter_of(
                mb[m.from_idx()]->0.spec_kind(),
            )
            &&& (type_promoted_piece(m.spec_type()) is Some) == (s[n - 2] == 61)
            &&& type_promoted_piece(m.spec_type()) matches Some(q) ==> n >= 4 && s[n - 1] == letter_of(q)
                && s[n - 4] == file_char(t) && s[n - 3] == rank_char(t)
            &&& type_promoted_piece(m.spec_type()) is None ==> s[n - 2] == file_char(t) && s[n - 1]
                == rank_char(t)
        },
{
    let mb = b.spec_mailbox();
    let st = b.spec_state();
    let f = m.from_idx();
    let t = m.to_idx();
    let y = m.spec_type();
    b.lemma_mailbox_len();
    assert(pseudo_move(mb, st, true, true, f, t, y));
    lemma_square_chars(f);
    lemma_square_chars(t);
    if y != MoveType::KingCastle && y != MoveType::QueenCastle {
        assert(mb[f] is Some);
        let k = mb[f]->0.spec_kind();
        lemma_hint_len(b, m, k);
        let s = san_of(b, m);
        assert(s == san_parts(b, m, k));
    }
}

/// Piece letters name one piece each and are neither file letters nor the
/// castling `O`.
proof fn lemma_letters(a: PieceType, b: PieceType)
    ensures
        letter_of(a) == letter_of(b) ==> a == b,
        letter_of(a) < 97,
        letter_of(a) != 79,
{
}

/// Two legal castling moves of one kind are the same move.
proof fn lemma_castle_same(b: Board, m1: Move, m2: Move)
    requires
        legal_move(b.spec_mailbox(), b.spec_state(), m1.from_idx(), m1.to_idx(), m1.spec_type()),
        legal_move(b.spec_mailbox(), b.spec_state(), m2.from_idx(), m2.to_idx(), m2.spec_type()),
        m1.spec_type() == m2.spec_type(),
        m1.spec_type() == MoveType::KingCastle || m1.spec_type() == MoveType::QueenCastle,
    ensures
        m1.from_idx() == m2.from_idx(),
        m1.to_idx() == m2.to_idx(),
{
    let mb = b.spec_mailbox();
    let st = b.spec_state();
    assert(pseudo_move(mb, st, true, true, m1.from_idx(), m1.to_idx(), m1.spec_type()));
    assert(pseudo_move(mb, st, true, true, m2.from_idx(), m2.to_idx(), m2.spec_type()));
}

/// Two legal pawn moves to one square, written alike and promoting (if at
/// all) to the same piece, are the same move.
proof fn lemma_pawn_same(b: Board, m1: Move, m2: Move)
    requires
        playable(b),
        legal_move(b.spec_mailbox(), b.spec_state(), m1.from_idx(), m1.to_idx(), m1.spec_type()),
        legal_move(b.spec_mailbox(), b.spec_state(), m2.from_idx(), m2.to_idx(), m2.spec_type()),
        m1.spec_type() != MoveType::KingCastle && m1.spec_type() != MoveType::QueenCastle,
        m2.spec_type() != MoveType::KingCastle && m2.spec_type() != MoveType::QueenCastle,
        b.spec_mailbox()[m1.from_idx()] is Some,
        b.spec_mailbox()[m2.from_idx()] is Some,
        b.spec_mailbox()[m1.from_idx()]->0.spec_kind() == PieceType::Pawn,
        b.spec_mailbox()[m2.from_idx()]->0.spec_kind() == PieceType::Pawn,
        m1.to_idx() == m2.to_idx(),
        type_promoted_piece(m1.spec_type()) == type_promoted_piece(m2.spec_type()),
        san_parts(b, m1, PieceType::Pawn) == san_parts(b, m2, PieceType::Pawn),
    ensures
        m1.from_idx() == m2.from_idx(),
        m1.spec_type() == m2.spec_type(),
{
    let mb = b.spec_mailbox();
    let st = b.spec_state();
    let us = st.spec_side();
    let f1 = m1.from_idx();
    let f2 = m2.from_idx();
    let t = m1.to_idx();
    let y1 = m1.spec_type();
    let y2 = m2.spec_type();
    b.lemma_mailbox_len();
    lemma_square_chars(f1);
    lemma_square_chars(f2);
    assert(pseudo_move(mb, st, true, true, f1, t, y1));
    assert(pseudo_move(mb, st, true, true, f2, t, y2));
    let s = san_parts(b, m1, PieceType::Pawn);
    assert(type_is_capture(y1) == type_is_capture(y2)) by {
        if type_is_capture(y1) != type_is_capture(y2) {
            assert(san_parts(b, m1, PieceType::Pawn).len() != san_parts(b, m2, PieceType::Pawn).len());
        }
    }
    if type_is_capture(y1) {
        assert(s[0] == file_char(f1));
        assert(san_parts(b, m2, PieceType::Pawn)[0] == file_char(f2));
        assert(f1 % 8 == f2 % 8);
        assert(f1 == 8 * (f1 / 8) + f1 % 8);
        assert(f2 == 8 * (f2 / 8) + f2 % 8);
        assert(f1 == f2);
        if crate::board::moves::type_is_promotion(y1) {
            lemma_promo_type(y1, y2);
        }
    } else {
        if crate::board::moves::type_is_promotion(y1) {
            lemma_promo_type(y1, y2);
        }
    }
}

/// Two legal moves of one kind of piece (not a pawn) to one square,
/// written alike, are the same move: a second such piece would be a rival
/// of each, and the hints tell rivals apart.
proof fn lemma_piece_same(b: Board, m1: Move, m2: Move, k: PieceType)
    requires
        playable(b),
        legal_move(b.spec_mailbox(), b.spec_state(), m1.from_idx(), m1.to_idx(), m1.spec_type()),
        legal_move(b.spec_mailbox(), b.spec_state(), m2.from_idx(), m2.to_idx(), m2.spec_type()),
        m1.spec_type() != MoveType::KingCastle && m1.spec_type() != MoveType::QueenCastle,
        m2.spec_type() != MoveType::KingCastle && m2.spec_type() != MoveType::QueenCastle,
        k != PieceType::Pawn,
        b.spec_mailbox()[m1.from_idx()] is Some,
        b.spec_mailbox()[m2.from_idx()] is Some,
        b.spec_mailbox()[m1.from_idx()]->0.spec_kind() == k,
        b.spec_mailbox()[m2.from_idx()]->0.spec_kind() == k,
        m1.to_idx() == m2.to_idx(),
        san_parts(b, m1, k) == san_parts(b, m2, k),
    ensures
        m1.from_idx() == m2.from_idx(),
        m1.spec_type() == m2.spec_type(),
{
    let mb = b.spec_mailbox();
    let st = b.spec_state();
    let f1 = m1.from_idx();
    let f2 = m2.from_idx();
    let t = m1.to_idx();
    let y1 = m1.spec_type();
    let y2 = m2.spec_type();
    b.lemma_mailbox_len();
    assert(pseudo_move(mb, st, true, true, f1, t, y1));
    assert(pseudo_move(mb, st, true, true, f2, t, y2));
    assert(y1 == y2);
    let h1 = hint(b, m1, k);
    let h2 = hint(b, m2, k);
    lemma_hint_len(b, m1, k);
    lemma_hint_len(b, m2, k);
    let s = san_parts(b, m1, k);
    assert(h1.len() == h2.len()) by {
        assert(san_parts(b, m1, k).len() == san_parts(b, m2, k).len());
    }
    assert(h1 =~= s.subrange(1, 1 + h1.len() as int));
    assert(h2 =~= san_parts(b, m2, k).subrange(1, 1 + h2.len() as int));
    if f1 != f2 {
        reveal(rival);
        assert(legal_move(mb, st, f2, m1.to_idx(), y2));
        assert(legal_move(mb, st, f1, m2.to_idx(), y1));
        assert(rival(b, m1, k, f2));
        assert(rival(b, m2, k, f1));
        lemma_hints_differ(b, m1, m2, k);
    }
}

/// Two legal moves written alike by [`san_of`] are the same move: the
/// notation tells every legal move of a position apart.
pub proof fn lemma_san_injective(b: Board, m1: Move, m2: Move)
    requires
        playable(b),
        legal_move(b.spec_mailbox(), b.spec_state(), m1.from_idx(), m1.to_idx(), m1.spec_type()),
        legal_move(b.spec_mailbox(), b.spec_state(), m2.from_idx(), m2.to_idx(), m2.spec_type()),
        san_of(b, m1) == san_of(b, m2),
    ensures
        m1.from_idx() == m2.from_idx(),
        m1.to_idx() == m2.to_idx(),
        m1.spec_type() == m2.spec_type(),
{
    let mb = b.spec_mailbox();
    let y1 = m1.spec_type();
    let y2 = m2.spec_type();
    let s = san_of(b, m1);
    lemma_san_shape(b, m1);
    lemma_san_shape(b, m2);
    let castle1 = y1 == MoveType::KingCastle || y1 == MoveType::QueenCastle;
    let castle2 = y2 == MoveType::KingCastle || y2 == MoveType::QueenCastle;
    if castle1 || castle2 {
        assert(castle1 && castle2) by {
            if !castle1 || !castle2 {
                assert(s[0] == 79);
            }
        }
        assert(y1 == y2) by {
            if y1 != y2 {
                assert(san_of(b, m1).len() != san_of(b, m2).len());
            }
        }
        lemma_castle_same(b, m1, m2);
    } else {
        let t1 = m1.to_idx();
        let t2 = m2.to_idx();
        let n = s.len() as int;
        let p1 = type_promoted_piece(y1);
        let p2 = type_promoted_piece(y2);
        lemma_square_chars(t1);
        lemma_square_chars(t2);
        if p1 is Some {
            assert(p2 is Some);
            lemma_letters(p1->0, p2->0);
        }
        assert(t1 == 8 * (t1 / 8) + t1 % 8);
        assert(t2 == 8 * (t2 / 8) + t2 % 8);
        assert(t1 == t2);
        let k1 = mb[m1.from_idx()]->0.spec_kind();
        let k2 = mb[m2.from_idx()]->0.spec_kind();
        if k1 != PieceType::Pawn && k2 != PieceType::Pawn {
            lemma_letters(k1, k2);
        }
        assert(k1 == k2);
        if k1 == PieceType::Pawn {
            lemma_pawn_same(b, m1, m2);
        } else {
            lemma_piece_same(b, m1, m2, k1);
        }
    }
}

/// `san_of`'s text, put back together from what [`normalized`] leaves of
/// it: the castling dashes and the promotion's `=` restored.
pub open spec fn expand(c: Seq<u8>) -> Seq<u8> {
    if c == seq![79u8, 79] {
        seq![79u8, 45, 79]
    } else if c == seq![79u8, 79, 79] {
        seq![79u8, 45, 79, 45, 79]
    } else if c.len() > 0 && c.last() > 56 {
        c.drop_last() + seq![61u8, c.last()]
    } else {
        c
    }
}

/// Dropping marks from joined text drops them from each part.
proof fn lemma_unmarked_add(a: Seq<u8>, b: Seq<u8>)
    ensures
        unmarked(a + b) == unmarked(a) + unmarked(b),
    decreases b.len(),
{
    if b.len() == 0 {
        assert(a + b =~= a);
        assert(unmarked(a) + unmarked(b) =~= unmarked(a));
    } else {
        assert((a + b).drop_last() =~= a + b.drop_last());
        assert((a + b).last() == b.last());
        lemma_unmarked_add(a, b.drop_last());
        assert(unmarked(a + b) =~= unmarked(a) + unmarked(b));
    }
}

/// Text without marks has none to drop.
proof fn lemma_unmarked_plain(s: Seq<u8>)
    requires
        forall|i: int| 0 <= i < s.len() ==> !is_mark(#[trigger] s[i]),
    ensures
        unmarked(s) == s,
    decreases s.len(),
{
    if s.len() > 0 {
        lemma_unmarked_plain(s.drop_last());
        assert(unmarked(s) =~= s);
    }
}

/// A hint is made of file letters and rank digits.
proof fn lemma_hint_chars(b: Board, mv: Move, k: PieceType)
    requires
        0 <= mv.from_idx() < 64,
    ensures
        forall|i: int| 0 <= i < hint(b, mv, k).len() ==> {
            let c = #[trigger] hint(b, mv, k)[i];
            (97 <= c <= 104) || (49 <= c <= 56)
        },
{
    reveal(hint);
    lemma_square_chars(mv.from_idx());
}

/// Printable ASCII text not ending in a dot is left alone by trimming and
/// by dropping a trailing `e.p.`.
proof fn lemma_trimmed_plain(s: Seq<u8>)
    requires
        s.len() > 0,
        forall|i: int| 0 <= i < s.len() ==> 33 <= #[trigger] s[i] < 128,
        s.last() != 46,
    ensures
        trimmed(s) == s,
        without_ep(s) == s,
{
    assert(ws_len(s, 0) == 0);
    assert(trim_start(s) == s);
    let n = s.len() as int;
    assert(ws_len(s, n - 1) == 0);
    if n >= 2 {
        assert(ws_len(s, n - 2) != 2);
    }
    if n >= 3 {
        assert(ws_len(s, n - 3) != 3);
    }
    assert(ws_end(s) == 0);
    if n >= 4 {
        assert(s.subrange(n - 4, n)[3] == s[n - 1]);
    }
}

/// What [`normalized`] leaves of a castling move's notation puts it back
/// together.
proof fn lemma_normalized_castle(s: Seq<u8>)
    requires
        s == seq![79u8, 45, 79] || s == seq![79u8, 45, 79, 45, 79],
    ensures
        expand(normalized(s)) == s,
        normalized(s).len() > 0,
{
    reveal(normalized);
    lemma_trimmed_plain(s);
    reveal_with_fuel(unmarked, 6);
    if s.len() == 3 {
        assert(unmarked(s) =~= seq![79u8, 79]);
    } else {
        assert(unmarked(s) =~= seq![79u8, 79, 79]);
    }
}

/// What [`normalized`] leaves of the notation of a legal move that does
/// not castle puts it back together.
#[verifier::rlimit(30)]
proof fn lemma_normalized_plain(b: Board, m: Move)
    requires
        playable(b),
        legal_move(b.spec_mailbox(), b.spec_state(), m.from_idx(), m.to_idx(), m.spec_type()),
        m.spec_type() != MoveType::KingCastle,
        m.spec_type() != MoveType::QueenCastle,
    ensures
        expand(normalized(san_of(b, m))) == san_of(b, m),
        normalized(san_of(b, m)).len() > 0,
{
    reveal(normalized);
    let s = san_of(b, m);
    let y = m.spec_type();
    lemma_san_shape(b, m);
    lemma_square_chars(m.from_idx());
    lemma_square_chars(m.to_idx());
    let mb = b.spec_mailbox();
    let k = mb[m.from_idx()]->0.spec_kind();
    let t = m.to_idx();
    let f = m.from_idx();
    let capture = type_is_capture(y);
    lemma_letters(k, k);
    lemma_hint_chars(b, m, k);
    let head = if k == PieceType::Pawn {
        if capture {
            seq![file_char(f)]
        } else {
            Seq::empty()
        }
    } else {
        seq![letter_of(k)] + hint(b, m, k)
    };
    let a = head + (if capture {
        seq![120u8]
    } else {
        Seq::empty()
    }) + seq![file_char(t), rank_char(t)];
    assert forall|i: int| 0 <= i < a.len() implies !is_mark(#[trigger] a[i]) && 48 <= a[i] < 128 by {
        if k != PieceType::Pawn && 1 <= i < 1 + hint(b, m, k).len() {
            assert(a[i] == hint(b, m, k)[i - 1]);
        }
    }
    lemma_unmarked_plain(a);
    match type_promoted_piece(y) {
        Some(q) => {
            lemma_letters(q, q);
            let pr = seq![61u8, letter_of(q)];
            assert(s == a + pr);
            lemma_unmarked_add(a, pr);
            reveal_with_fuel(unmarked, 3);
            assert(unmarked(pr) =~= seq![letter_of(q)]);
            assert forall|i: int| 0 <= i < s.len() implies 33 <= #[trigger] s[i] < 128 by {
                if i < a.len() {
                    assert(s[i] == a[i]);
                }
            }
            lemma_trimmed_plain(s);
            let u = a + seq![letter_of(q)];
            assert(unmarked(s) == u);
            assert(u.drop_last() =~= a);
            assert(expand(u) =~= s);
        },
        None => {
            assert(s =~= a);
            lemma_trimmed_plain(s);
            assert(unmarked(s) == a);
            assert(expand(a) == a);
        },
    }
}

/// What [`normalized`] leaves of a legal move's notation puts the notation
/// back together (see [`expand`]).
proof fn lemma_normalized_san(b: Board, m: Move)
    requires
        playable(b),
        legal_move(b.spec_mailbox(), b.spec_state(), m.from_idx(), m.to_idx(), m.spec_type()),
    ensures
        expand(normalized(san_of(b, m))) == san_of(b, m),
        normalized(san_of(b, m)).len() > 0,
{
    let y = m.spec_type();
    if y == MoveType::KingCastle || y == MoveType::QueenCastle {
        lemma_san_shape(b, m);
        lemma_normalized_castle(san_of(b, m));
    } else {
        lemma_normalized_plain(b, m);
    }
}

/// Two legal moves whose notations normalize alike are the same move, so
/// a move's notation read back resolves to that move.
pub proof fn lemma_san_round_trip(b: Board, m1: Move, m2: Move)
    requires
        playable(b),
        legal_move(b.spec_mailbox(), b.spec_state(), m1.from_idx(), m1.to_idx(), m1.spec_type()),
        legal_move(b.spec_mailbox(), b.spec_state(), m2.from_idx(), m2.to_idx(), m2.spec_type()),
        normalized(san_of(b, m1)) == normalized(san_of(b, m2)),
    ensures
        m1.from_idx() == m2.from_idx(),
        m1.to_idx() == m2.to_idx(),
        m1.spec_type() == m2.spec_type(),
        normalized(san_of(b, m1)).len() > 0,
{
    lemma_normalized_san(b, m1);
    lemma_normalized_san(b, m2);
    lemma_san_injective(b, m1, m2);
}

} // verus!
