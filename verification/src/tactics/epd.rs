//! EPD positions of a tactical suite, and searching one of them to see
//! whether, and from which iteration on, the engine finds its solution.

use std::sync::atomic::AtomicBool;
use vstd::prelude::*;
use vstd::utf8::{decode_utf8, encode_utf8, valid_utf8};
use vstd::string::StringSliceAdditionalSpecFns;
use crate::board::{Board, Move, MoveType};
use crate::board::fen::{decimal, fen_board, fen_ok};
use crate::eval::position::pawns_placed;
use crate::movegen::legal::playable;
use crate::search::{Iteration, Limits, SearchListener};
use crate::search::tree::search_inner;
use crate::tactics::Outcome;
use crate::text::{split_words, words, ws_len, ws_len_exec};
use crate::tt::TranspositionTable;
use crate::uci::{joined, join_words, lemma_words_of, text_of};
use crate::uci::san::{normalized, parse_san, san_of, trimmed};
use crate::movegen::legal::legal_move;

verus! {

broadcast use vstd::std_specs::vec::group_vec_axioms;

/// One EPD position and the moves that count as solving it.
#[derive(Debug, Clone, PartialEq, Eq)]
pub struct Position {
    /// Board as given by the EPD's first four fields.
    pub board: Board,
    /// Moves that solve the position, from a `bm` operation.
    pub best: Vec<String>,
    /// Moves that fail it, from an `am` operation.
    pub avoid: Vec<String>,
    /// The `id` operation, or the line number when absent.
    pub id: String,
}

/// The start of the `k`-th whitespace character (counting from 0) at or
/// after byte `i` of `s`, if there is one.
pub open spec fn nth_space(s: Seq<u8>, i: int, k: nat) -> Option<int>
    decreases s.len() - i, k,
{
    if i < 0 || i >= s.len() {
        None
    } else if ws_len(s, i) > 0 {
        if k == 0 {
            Some(i)
        } else {
            nth_space(s, i + ws_len(s, i), (k - 1) as nat)
        }
    } else {
        nth_space(s, i + 1, k)
    }
}

/// The operations of an EPD line: everything from the fourth whitespace
/// character of the trimmed line on (nothing when there is none).
pub open spec fn operations(t: Seq<u8>) -> Seq<u8> {
    match nth_space(t, 0, 3) {
        Some(at) => t.subrange(at, t.len() as int),
        None => Seq::empty(),
    }
}

/// The pieces of `s[start..]` between semicolons, the piece open at `i`
/// starting at `start`.
pub open spec fn pieces_from(s: Seq<u8>, start: int, i: int) -> Seq<Seq<u8>>
    decreases s.len() - i,
{
    if i >= s.len() {
        seq![s.subrange(start, s.len() as int)]
    } else if s[i] == 59 {
        seq![s.subrange(start, i)] + pieces_from(s, i + 1, i + 1)
    } else {
        pieces_from(s, start, i + 1)
    }
}

/// `t` starts with the three bytes of `p`.
pub open spec fn starts(t: Seq<u8>, p: Seq<u8>) -> bool {
    t.len() >= 3 && t.subrange(0, 3) == p
}

/// The text after `prefix` (a three-byte operation name and its space) of
/// the last of the pieces, trimmed, that starts with it.
pub open spec fn last_op(ps: Seq<Seq<u8>>, prefix: Seq<u8>) -> Option<Seq<u8>>
    decreases ps.len(),
{
    if ps.len() == 0 {
        None
    } else {
        let o = trimmed(ps.last());
        if starts(o, prefix) {
            Some(o.subrange(3, o.len() as int))
        } else {
            last_op(ps.drop_last(), prefix)
        }
    }
}

/// `s` without the double quotes at either end.
pub open spec fn unquoted(s: Seq<u8>) -> Seq<u8>
    decreases s.len(),
{
    if s.len() > 0 && s[0] == 34 {
        unquoted(s.drop_first())
    } else if s.len() > 0 && s.last() == 34 {
        unquoted(s.drop_last())
    } else {
        s
    }
}

/// The words of an operation, or none when it is absent.
pub open spec fn op_words(op: Option<Seq<u8>>) -> Seq<Seq<u8>> {
    match op {
        Some(x) => words(x),
        None => Seq::empty(),
    }
}

/// The FEN record an EPD line's first four fields make, with the clocks
/// `0 1` added.
pub open spec fn epd_fen(t: Seq<u8>) -> Seq<u8> {
    joined(words(t), 0, 4) + seq![32u8, 48, 32, 49]
}

/// Whether an EPD line holds a position to score: not blank, not a `#`
/// comment, four fields that make a FEN record, and a `bm` or an `am`
/// operation with at least one move.
pub open spec fn epd_ok(line: Seq<u8>) -> bool {
    let t = trimmed(line);
    let ps = pieces_from(operations(t), 0, 0);
    &&& t.len() > 0
    &&& t[0] != 35
    &&& words(t).len() >= 4
    &&& fen_ok(epd_fen(t))
    &&& (op_words(last_op(ps, seq![98u8, 109, 32])).len() > 0 || op_words(
        last_op(ps, seq![97u8, 109, 32]),
    ).len() > 0)
}

/// `ss` holds the texts `ws`, as far as each is valid UTF-8.
pub open spec fn texts(ss: Seq<String>, ws: Seq<Seq<u8>>) -> bool {
    &&& ss.len() == ws.len()
    &&& forall|k: int| 0 <= k < ss.len() ==> (valid_utf8(ws[k]) ==> (#[trigger] ss[k])@ == decode_utf8(ws[k]))
}

/// `p` is the position an EPD line describes, given its line number: the
/// board of its FEN fields, the moves of its last `bm` and `am` operations,
/// and its last `id` without quotes, or `line N`.
pub open spec fn epd_position(line: Seq<u8>, line_number: usize, p: Position) -> bool {
    let t = trimmed(line);
    let ps = pieces_from(operations(t), 0, 0);
    let id = match last_op(ps, seq![105u8, 100, 32]) {
        Some(x) => unquoted(trimmed(x)),
        None => seq![108u8, 105, 110, 101, 32] + decimal(line_number as nat),
    };
    &&& fen_board(p.board, epd_fen(t))
    &&& texts(p.best@, op_words(last_op(ps, seq![98u8, 109, 32])))
    &&& texts(p.avoid@, op_words(last_op(ps, seq![97u8, 109, 32])))
    &&& (valid_utf8(id) ==> p.id@ == decode_utf8(id))
}

/// The bytes `s[a..b]`.
fn copy_range(s: &[u8], a: usize, b: usize) -> (r: Vec<u8>)
    requires
        a <= b <= s@.len(),
    ensures
        r@ == s@.subrange(a as int, b as int),
{
    let mut r: Vec<u8> = Vec::new();
    let mut i = a;
    while i < b
        invariant
            a <= i <= b <= s@.len(),
            r@ == s@.subrange(a as int, i as int),
        decreases b - i,
    {
        r.push(s[i]);
        i = i + 1;
        assert(r@ =~= s@.subrange(a as int, i as int));
    }
    r
}

/// The words of `s` as strings.
fn word_texts(s: &[u8]) -> (r: Vec<String>)
    ensures
        texts(r@, words(s@)),
{
    let ranges = split_words(s);
    proof {
        lemma_words_of(s@, ranges@);
    }
    let mut r: Vec<String> = Vec::new();
    let mut k: usize = 0;
    while k < ranges.len()
        invariant
            k <= ranges@.len(),
            words(s@) == ranges@.map_values(|p: (usize, usize)| s@.subrange(p.0 as int, p.1 as int)),
            forall|q: int| 0 <= q < ranges@.len() ==> (#[trigger] ranges@[q]).0 < ranges@[q].1 <= s@.len(),
            r@.len() == k,
            forall|q: int|
                0 <= q < k ==> (valid_utf8(words(s@)[q]) ==> (#[trigger] r@[q])@ == decode_utf8(
                    words(s@)[q],
                )),
        decreases ranges@.len() - k,
    {
        let (a, b) = ranges[k];
        let bytes = copy_range(s, a, b);
        assert(words(s@)[k as int] == s@.subrange(a as int, b as int));
        r.push(text_of(bytes.as_slice()));
        k = k + 1;
    }
    r
}

/// The trimmed bytes of `s` (see [`trimmed`]).
fn trim(s: &[u8]) -> (r: Vec<u8>)
    ensures
        r@ == trimmed(s@),
{
    crate::uci::san::trim_bytes(s)
}

/// Splits `s` at semicolons (see [`pieces_from`]).
fn split_semicolons(s: &[u8]) -> (r: Vec<Vec<u8>>)
    ensures
        r@.len() == pieces_from(s@, 0, 0).len(),
        forall|k: int| 0 <= k < r@.len() ==> (#[trigger] r@[k])@ == pieces_from(s@, 0, 0)[k],
{
    let mut r: Vec<Vec<u8>> = Vec::new();
    let mut start: usize = 0;
    let mut i: usize = 0;
    let ghost done: Seq<Seq<u8>> = Seq::empty();
    while i < s.len()
        invariant
            start <= i <= s@.len(),
            r@.len() == done.len(),
            forall|k: int| 0 <= k < r@.len() ==> (#[trigger] r@[k])@ == done[k],
            done + pieces_from(s@, start as int, i as int) == pieces_from(s@, 0, 0),
        decreases s@.len() - i,
    {
        if s[i] == 59 {
            let piece = copy_range(s, start, i);
            proof {
                assert(pieces_from(s@, start as int, i as int) == seq![s@.subrange(start as int, i as int)]
                    + pieces_from(s@, i + 1, i + 1));
                assert(done.push(piece@) + pieces_from(s@, i + 1, i + 1) =~= done + pieces_from(
                    s@,
                    start as int,
                    i as int,
                ));
                done = done.push(piece@);
            }
            r.push(piece);
            start = i + 1;
        }
        i = i + 1;
    }
    let last = copy_range(s, start, s.len());
    proof {
        assert(pieces_from(s@, start as int, i as int) == seq![s@.subrange(start as int, s@.len() as int)]);
        done = done.push(last@);
    }
    r.push(last);
    r
}

/// Whether `t` starts with the three bytes `a b c`.
fn starts_exec(t: &Vec<u8>, a: u8, b: u8, c: u8) -> (r: bool)
    ensures
        r == starts(t@, seq![a, b, c]),
{
    if t.len() < 3 {
        return false;
    }
    let r = t[0] == a && t[1] == b && t[2] == c;
    proof {
        if r {
            assert(t@.subrange(0, 3) =~= seq![a, b, c]);
        } else if t@.subrange(0, 3) == seq![a, b, c] {
            assert(t@.subrange(0, 3)[0] == t@[0]);
            assert(t@.subrange(0, 3)[1] == t@[1]);
            assert(t@.subrange(0, 3)[2] == t@[2]);
        }
    }
    r
}

/// The text after the prefix `a b c` of the last piece that starts with it
/// (see [`last_op`]).
fn find_last_op(ps: &Vec<Vec<u8>>, a: u8, b: u8, c: u8) -> (r: Option<Vec<u8>>)
    ensures
        ({
            let pv = ps@.map_values(|p: Vec<u8>| p@);
            &&& r is Some <==> last_op(pv, seq![a, b, c]) is Some
            &&& r matches Some(x) ==> x@ == last_op(pv, seq![a, b, c])->0
        }),
{
    let ghost pv = ps@.map_values(|p: Vec<u8>| p@);
    let mut k = ps.len();
    proof {
        assert(pv.subrange(0, k as int) =~= pv);
    }
    while k > 0
        invariant
            k <= ps@.len(),
            pv == ps@.map_values(|p: Vec<u8>| p@),
            last_op(pv, seq![a, b, c]) == last_op(pv.subrange(0, k as int), seq![a, b, c]),
        decreases k,
    {
        let o = trim(ps[k - 1].as_slice());
        proof {
            let sub = pv.subrange(0, k as int);
            assert(sub.last() == ps@[k - 1]@);
            assert(sub.drop_last() =~= pv.subrange(0, k - 1));
        }
        if starts_exec(&o, a, b, c) {
            return Some(copy_range(o.as_slice(), 3, o.len()));
        }
        k = k - 1;
    }
    proof {
        assert(pv.subrange(0, 0) =~= Seq::<Seq<u8>>::empty());
    }
    None
}

/// `s` without the double quotes at either end (see [`unquoted`]).
fn unquote(s: &Vec<u8>) -> (r: Vec<u8>)
    ensures
        r@ == unquoted(s@),
{
    let mut a: usize = 0;
    let mut b: usize = s.len();
    proof {
        assert(s@.subrange(0, s@.len() as int) =~= s@);
    }
    while a < b && (s[a] == 34 || s[b - 1] == 34)
        invariant
            a <= b <= s@.len(),
            unquoted(s@) == unquoted(s@.subrange(a as int, b as int)),
        decreases b - a,
    {
        let ghost sub = s@.subrange(a as int, b as int);
        if s[a] == 34 {
            assert(sub.drop_first() =~= s@.subrange(a + 1, b as int));
            a = a + 1;
        } else {
            assert(sub.drop_last() =~= s@.subrange(a as int, b - 1));
            b = b - 1;
        }
    }
    copy_range(s.as_slice(), a, b)
}

/// The index of the fourth whitespace character of `t` (see
/// [`nth_space`]), if there is one.
fn fourth_space(t: &Vec<u8>) -> (r: Option<usize>)
    ensures
        r matches Some(at) ==> nth_space(t@, 0, 3) == Some(at as int) && at < t@.len(),
        r is None ==> nth_space(t@, 0, 3) is None,
{
    let mut i: usize = 0;
    let mut k: usize = 3;
    while i < t.len()
        invariant
            i <= t@.len(),
            k <= 3,
            nth_space(t@, 0, 3) == nth_space(t@, i as int, k as nat),
        decreases t@.len() - i,
    {
        let w = ws_len_exec(t.as_slice(), i);
        if w > 0 {
            if k == 0 {
                return Some(i);
            }
            k = k - 1;
            i = i + w;
        } else {
            i = i + 1;
        }
    }
    None
}

/// The decimal digits of `n`.
fn decimal_bytes(out: &mut Vec<u8>, n: usize)
    ensures
        final(out)@ == old(out)@ + decimal(n as nat),
    decreases n,
{
    if n >= 10 {
        decimal_bytes(out, n / 10);
    }
    out.push(48 + (n % 10) as u8);
    proof {
        if n >= 10 {
            assert(decimal(n as nat) == decimal((n / 10) as nat).push((48 + n % 10) as u8));
        }
        assert(final(out)@ =~= old(out)@ + decimal(n as nat));
    }
}

/// Parses an EPD line into a position: `None` exactly when the line holds
/// no position to score (see [`epd_ok`]), else the position it describes
/// (see [`epd_position`]); `line_number` names it when it carries no `id`.
/// EPD writes only the first four FEN fields, so the clocks are `0 1`.
pub fn parse_epd(line: &str, line_number: usize) -> (p: Option<Position>)
    ensures
        p is Some <==> epd_ok(line.spec_bytes()),
        p matches Some(pos) ==> epd_position(line.spec_bytes(), line_number, pos),
{
    let t = trim(line.as_bytes());
    if t.len() == 0 || t[0] == 35 {
        return None;
    }
    let ranges = split_words(t.as_slice());
    proof {
        lemma_words_of(t@, ranges@);
    }
    if ranges.len() < 4 {
        return None;
    }
    let mut fen = join_words(t.as_slice(), &ranges, 0, 4);
    fen.push(32);
    fen.push(48);
    fen.push(32);
    fen.push(49);
    proof {
        assert(fen@ =~= epd_fen(t@));
    }
    let board = match Board::from_fen(fen.as_slice()) {
        Ok(b) => b,
        Err(_) => {
            return None;
        },
    };
    let rest = match fourth_space(&t) {
        Some(at) => copy_range(t.as_slice(), at, t.len()),
        None => Vec::new(),
    };
    proof {
        assert(rest@ =~= operations(t@));
    }
    let ops = split_semicolons(rest.as_slice());
    proof {
        assert(ops@.map_values(|p: Vec<u8>| p@) =~= pieces_from(operations(t@), 0, 0));
    }
    let ghost ps = pieces_from(operations(t@), 0, 0);
    let best = match find_last_op(&ops, 98, 109, 32) {
        Some(x) => word_texts(x.as_slice()),
        None => Vec::new(),
    };
    proof {
        assert(texts(best@, op_words(last_op(ps, seq![98u8, 109, 32]))));
    }
    let avoid = match find_last_op(&ops, 97, 109, 32) {
        Some(x) => word_texts(x.as_slice()),
        None => Vec::new(),
    };
    proof {
        assert(texts(avoid@, op_words(last_op(ps, seq![97u8, 109, 32]))));
    }
    if best.len() == 0 && avoid.len() == 0 {
        return None;
    }
    let id_bytes = match find_last_op(&ops, 105, 100, 32) {
        Some(x) => {
            let trimmed_id = trim(x.as_slice());
            unquote(&trimmed_id)
        },
        None => {
            let mut b: Vec<u8> = Vec::new();
            b.push(108);
            b.push(105);
            b.push(110);
            b.push(101);
            b.push(32);
            decimal_bytes(&mut b, line_number);
            b
        },
    };
    proof {
        let expected = match last_op(ps, seq![105u8, 100, 32]) {
            Some(x) => unquoted(trimmed(x)),
            None => seq![108u8, 105, 110, 101, 32] + decimal(line_number as nat),
        };
        assert(id_bytes@ =~= expected);
    }
    let id = text_of(id_bytes.as_slice());
    Some(Position { board, best, avoid, id })
}

/// Some text of `texts` names the legal move `mv` on `b`: its notation
/// normalizes as the move's does (see [`normalized`]).
pub open spec fn named(b: Board, texts: Seq<String>, mv: Move) -> bool {
    &&& legal_move(b.spec_mailbox(), b.spec_state(), mv.from_idx(), mv.to_idx(), mv.spec_type())
    &&& exists|k: int|
        0 <= k < texts.len() && normalized(san_of(b, mv)) == normalized(
            encode_utf8(#[trigger] texts[k]@),
        )
}

/// Whether some move written in `list` names `mv` on `board`.
fn names_move(board: &Board, list: &Vec<String>, mv: Move) -> (r: bool)
    requires
        playable(*board),
    ensures
        r == named(*board, list@, mv),
{
    let mut k: usize = 0;
    while k < list.len()
        invariant
            playable(*board),
            k <= list@.len(),
            forall|j: int|
                0 <= j < k ==> !(legal_move(
                    board.spec_mailbox(),
                    board.spec_state(),
                    mv.from_idx(),
                    mv.to_idx(),
                    mv.spec_type(),
                ) && normalized(san_of(*board, mv)) == normalized(encode_utf8(#[trigger] list@[j]@))),
        decreases list@.len() - k,
    {
        let text = list[k].as_str();
        match parse_san(board, text) {
            Some(want) => {
                if want == mv {
                    proof {
                        assert(list@[k as int]@ == text@);
                    }
                    return true;
                }
                proof {
                    if legal_move(board.spec_mailbox(), board.spec_state(), mv.from_idx(), mv.to_idx(), mv.spec_type())
                        && normalized(san_of(*board, mv)) == normalized(text.spec_bytes()) {
                        want.lemma_fields(mv);
                    }
                }
            },
            None => {},
        }
        proof {
            assert(list@[k as int]@ == text@);
        }
        k = k + 1;
    }
    false
}

impl Position {
    /// Whether `mv` solves this position on `board`: among the `bm` moves if
    /// it lists any, and not among the `am` moves.
    pub fn accepts(&self, board: &Board, mv: Move) -> (r: bool)
        requires
            playable(*board),
        ensures
            r == (!(self.avoid@.len() > 0 && named(*board, self.avoid@, mv)) && (self.best@.len() == 0
                || named(*board, self.best@, mv))),
    {
        if self.avoid.len() > 0 && names_move(board, &self.avoid, mv) {
            return false;
        }
        self.best.len() == 0 || names_move(board, &self.best, mv)
    }
}

/// `mv` solves `position` on `b`: named among its `bm` moves if it lists
/// any, and not among its `am` moves (see [`named`]).
pub open spec fn solves(position: Position, b: Board, mv: Move) -> bool {
    &&& !(position.avoid@.len() > 0 && named(b, position.avoid@, mv))
    &&& (position.best@.len() == 0 || named(b, position.best@, mv))
}

/// The iteration's best move solves `position`.
pub open spec fn solved_by(position: Position, it: Iteration) -> bool {
    it.best_move matches Some(mv) && solves(position, position.board, mv)
}

/// The depth and node count of the first of `its` whose best move solves
/// `position`, if one does.
pub open spec fn first_solving(position: Position, its: Seq<Iteration>) -> Option<(u32, u64)>
    decreases its.len(),
{
    if its.len() == 0 {
        None
    } else {
        match first_solving(position, its.drop_last()) {
            Some(x) => Some(x),
            None => if solved_by(position, its.last()) {
                Some((its.last().depth, its.last().nodes))
            } else {
                None
            },
        }
    }
}

/// The first solving iteration is the earliest one whose best move solves
/// the position: it solves it, it carries the depth and node count
/// reported, no iteration before it solves it, and where the depths rise
/// from one iteration to the next no solving iteration is shallower.
pub proof fn first_solving_is_the_earliest(position: Position, its: Seq<Iteration>)
    ensures
        first_solving(position, its) is None <==> forall|j: int| 0 <= j < its.len() ==> !#[trigger] solved_by(position, its[j]),
        first_solving(position, its) matches Some((d, n)) ==> exists|k: int|
            0 <= k < its.len() && #[trigger] solved_by(position, its[k]) && its[k].depth == d && its[k].nodes == n
                && forall|j: int| 0 <= j < k ==> !#[trigger] solved_by(position, its[j]),
        first_solving(position, its) matches Some((d, n)) ==> ((forall|a: int, b: int|
            0 <= a < b < its.len() ==> #[trigger] its[a].depth < #[trigger] its[b].depth) ==> forall|j: int|
            0 <= j < its.len() && #[trigger] solved_by(position, its[j]) ==> d <= its[j].depth),
    decreases its.len(),
{
    if its.len() > 0 {
        let init = its.drop_last();
        first_solving_is_the_earliest(position, init);
        assert forall|j: int| 0 <= j < init.len() implies init[j] == its[j] by {}
        let last = its.len() - 1;
        assert(its.last() == its[last]);
        match first_solving(position, init) {
            Some((d, n)) => {
                let k = choose|k: int|
                    0 <= k < init.len() && #[trigger] solved_by(position, init[k]) && init[k].depth == d && init[k].nodes == n
                        && forall|j: int| 0 <= j < k ==> !#[trigger] solved_by(position, init[j]);
                assert(init[k] == its[k]);
                assert forall|j: int| 0 <= j < k implies !#[trigger] solved_by(position, its[j]) by {
                    assert(init[j] == its[j]);
                }
                if forall|a: int, b: int| 0 <= a < b < its.len() ==> #[trigger] its[a].depth < #[trigger] its[b].depth {
                    assert forall|j: int| 0 <= j < its.len() && #[trigger] solved_by(position, its[j]) implies d <= its[j].depth by {
                        if j < k {
                            assert(init[j] == its[j]);
                        } else if j > k {
                            assert(its[k].depth < its[j].depth);
                        }
                    }
                }
            },
            None => {
                assert forall|j: int| 0 <= j < init.len() implies !#[trigger] solved_by(position, its[j]) by {
                    assert(init[j] == its[j]);
                    assert(!solved_by(position, init[j]));
                }
                if solved_by(position, its[last]) {
                    if forall|a: int, b: int| 0 <= a < b < its.len() ==> #[trigger] its[a].depth < #[trigger] its[b].depth {
                        assert forall|j: int| 0 <= j < its.len() && #[trigger] solved_by(position, its[j]) implies its[last].depth <= its[j].depth by {
                            if j < last {
                                assert(!solved_by(position, its[j]));
                            }
                        }
                    }
                }
            },
        }
    }
}

/// One more iteration leaves a found first solving iteration alone, and
/// otherwise records the new one if its best move solves the position: the
/// step [`Solve`]'s `iteration` takes.
pub proof fn first_solving_extends(position: Position, its: Seq<Iteration>, it: Iteration)
    ensures
        first_solving(position, its) is Some ==> first_solving(position, its.push(it)) == first_solving(position, its),
        first_solving(position, its) is None && solved_by(position, it) ==> first_solving(position, its.push(it))
            == Some((it.depth, it.nodes)),
        first_solving(position, its) is None && !solved_by(position, it) ==> first_solving(position, its.push(it))
            is None,
{
    assert(its.push(it).drop_last() == its);
}

/// Records the first iteration whose best move solved the position.
pub struct Solve<'a> {
    position: &'a Position,
    /// The depth and node count of the first solving iteration.
    first: Option<(u32, u64)>,
}

impl<'a> Solve<'a> {
    /// The position being solved.
    pub closed spec fn spec_position(self) -> Position {
        *self.position
    }

    /// The depth and node count of the first solving iteration seen so far.
    pub closed spec fn spec_first(self) -> Option<(u32, u64)> {
        self.first
    }

    /// The moves are judged on a board the move generators can play on.
    #[verifier::type_invariant]
    spec fn judged(self) -> bool {
        playable(self.position.board)
    }
}

impl<'a> SearchListener for Solve<'a> {
    fn iteration(&mut self, iteration: &Iteration)
        ensures
            final(self).spec_position() == old(self).spec_position(),
            old(self).spec_first() is Some ==> final(self).spec_first() == old(self).spec_first(),
            old(self).spec_first() is None && solved_by(old(self).spec_position(), *iteration)
                ==> final(self).spec_first() == Some((iteration.depth, iteration.nodes)),
            old(self).spec_first() is None && !solved_by(old(self).spec_position(), *iteration)
                ==> final(self).spec_first() is None,
    {
        proof {
            use_type_invariant(&*self);
        }
        let correct = match iteration.best_move {
            Some(mv) => self.position.accepts(&self.position.board, mv),
            None => false,
        };
        if correct && self.first.is_none() {
            self.first = Some((iteration.depth, iteration.nodes));
        }
    }
}

/// Searches one position to `depth` with a table of its own, so that the
/// outcome does not depend on the positions searched before it, and
/// reports how it went: solved by the last iteration's move, the first
/// iteration and node count that found a solving move, the nodes spent, and
/// whether a found solution was lost again. `lmr` is the late-move
/// reduction table.
pub fn run_position(position: &Position, depth: u32, lmr: &[[u8; 64]; 64]) -> (o: Outcome)
    requires
        position.board.wf(),
        playable(position.board),
        pawns_placed(position.board.spec_mailbox()),
    ensures
        o.unstable == (o.first_depth is Some && !o.solved),
        o.first_depth is Some <==> o.first_nodes is Some,
        o.solved ==> exists|mv: Move| #[trigger] solves(*position, position.board, mv) && legal_move(
            position.board.spec_mailbox(),
            position.board.spec_state(),
            mv.from_idx(),
            mv.to_idx(),
            mv.spec_type(),
        ),
        crate::search::tree::has_legal_move(position.board) && (forall|mv: Move|
            legal_move(
                position.board.spec_mailbox(),
                position.board.spec_state(),
                mv.from_idx(),
                mv.to_idx(),
                mv.spec_type(),
            ) ==> #[trigger] solves(*position, position.board, mv)) ==> o.solved,
{
    let mut board = position.board.duplicate();
    let mut solve = Solve { position, first: None };
    let limits = Limits {
        depth: Some(depth),
        nodes: None,
        movetime: None,
        wtime: None,
        btime: None,
        winc: 0,
        binc: 0,
        infinite: true,
    };
    let stop = AtomicBool::new(false);
    let mut tt = TranspositionTable::new();
    let ghost dup = board;
    proof {
        if crate::search::tree::has_legal_move(position.board) {
            let (f, t, ty) = choose|f: int, t: int, ty: MoveType|
                #[trigger] legal_move(position.board.spec_mailbox(), position.board.spec_state(), f, t, ty);
            assert(legal_move(dup.spec_mailbox(), dup.spec_state(), f, t, ty));
        }
    }
    let result = search_inner(&mut board, limits, &stop, &mut tt, lmr, &mut solve);

    let (first_depth, first_nodes) = match solve.first {
        Some((d, n)) => (Some(d), Some(n)),
        None => (None, None),
    };
    // The search's move is the last iteration's, so this is whether the
    // last iteration still solved the position.
    let solved = match result.best_move {
        Some(mv) => {
            let ok = position.accepts(&position.board, mv);
            proof {
                assert(legal_move(
                    position.board.spec_mailbox(),
                    position.board.spec_state(),
                    mv.from_idx(),
                    mv.to_idx(),
                    mv.spec_type(),
                ));
                assert(ok == solves(*position, position.board, mv));
                if ok {
                    assert(solves(*position, position.board, mv));
                    assert(legal_move(
                        position.board.spec_mailbox(),
                        position.board.spec_state(),
                        mv.from_idx(),
                        mv.to_idx(),
                        mv.spec_type(),
                    ));
                }
            }
            ok
        },
        None => false,
    };
    Outcome {
        id: position.id.clone(),
        solved,
        first_depth,
        first_nodes,
        nodes: result.nodes.saturating_add(result.qnodes),
        unstable: first_depth.is_some() && !solved,
    }
}

} // verus!
