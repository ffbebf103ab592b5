//! Perft: counting the leaves of the legal move tree, the reference check
//! for move generation.
use vstd::prelude::*;
use crate::board::{Board, Move};
use crate::board::board::{lemma_made_unique, lemma_make_unmake, made};
use crate::movegen::legal::{
    generate_legal, is_playable, lemma_pseudo_playable, legal_generated, legal_move, playable,
};
use crate::movegen::list::MoveList;

verus! {

/// The sum of `c`, saturating at `u64::MAX` after each addition.
pub open spec fn saturated_sum(c: Seq<int>) -> int
    decreases c.len(),
{
    if c.len() == 0 {
        0
    } else {
        let s = saturated_sum(c.drop_last()) + c.last();
        if s > u64::MAX {
            u64::MAX as int
        } else {
            s
        }
    }
}

/// `n` is the number of legal leaf nodes `depth` plies below `b`: one at
/// depth zero, none below a position the generators cannot play on, and
/// otherwise the sum (saturating at `u64::MAX`), over a list holding every
/// legal move, of the count `depth - 1` plies below the position each move
/// leads to.
pub open spec fn leaf_count(b: Board, depth: nat, n: int) -> bool
    decreases depth,
{
    if depth == 0 {
        n == 1
    } else if !playable(b) {
        n == 0
    } else {
        exists|l: Seq<Move>, c: Seq<int>|
            #![trigger legal_generated(b, Seq::empty(), l), saturated_sum(c)]
            {
                &&& legal_generated(b, Seq::empty(), l)
                &&& c.len() == l.len()
                &&& forall|i: int, mid: Board|
                    0 <= i < l.len() && #[trigger] made(b, l[i], mid) ==> leaf_count(
                        mid,
                        (depth - 1) as nat,
                        c[i],
                    )
                &&& n == saturated_sum(c)
            }
    }
}

/// The count below a position depends on its pieces, state and history
/// alone.
proof fn lemma_leaf_count_same(x: Board, y: Board, depth: nat, n: int)
    requires
        leaf_count(x, depth, n),
        x.wf(),
        y.wf(),
        x.spec_mailbox() == y.spec_mailbox(),
        x.spec_state() == y.spec_state(),
        x.spec_history() == y.spec_history(),
    ensures
        leaf_count(y, depth, n),
{
    if depth > 0 && playable(x) {
        let (l, c) = choose|l: Seq<Move>, c: Seq<int>|
            #![trigger legal_generated(x, Seq::empty(), l), saturated_sum(c)]
            {
                &&& legal_generated(x, Seq::empty(), l)
                &&& c.len() == l.len()
                &&& forall|i: int, mid: Board|
                    0 <= i < l.len() && #[trigger] made(x, l[i], mid) ==> leaf_count(
                        mid,
                        (depth - 1) as nat,
                        c[i],
                    )
                &&& n == saturated_sum(c)
            };
        assert forall|i: int, mid: Board| 0 <= i < l.len() && #[trigger] made(y, l[i], mid) implies leaf_count(
            mid,
            (depth - 1) as nat,
            c[i],
        ) by {
            assert(made(x, l[i], mid));
        }
        assert(legal_generated(y, Seq::empty(), l));
        assert(saturated_sum(c) == n);
    }
}

/// A run of ones sums to its length, below the saturation point.
proof fn lemma_sum_ones(c: Seq<int>)
    requires
        c.len() <= u64::MAX,
        forall|i: int| 0 <= i < c.len() ==> c[i] == 1,
    ensures
        saturated_sum(c) == c.len(),
    decreases c.len(),
{
    if c.len() > 0 {
        lemma_sum_ones(c.drop_last());
    }
}

/// Counts the legal leaf nodes `depth` plies below `board`, leaving the
/// board as it was. A position the generators cannot play on (see
/// [`playable`]) counts no nodes below it. Counts saturate at `u64::MAX`.
pub fn perft(board: &mut Board, depth: u32) -> (nodes: u64)
    requires
        old(board).wf(),
    ensures
        Board::same_position(*final(board), *old(board)),
        final(board).wf(),
        leaf_count(*old(board), depth as nat, nodes as int),
        depth == 0 ==> nodes == 1,
        depth > 0 && !playable(*old(board)) ==> nodes == 0,
        depth == 1 && playable(*old(board)) ==> exists|l: Seq<Move>|
            legal_generated(*old(board), Seq::empty(), l) && nodes == l.len(),
    decreases depth,
{
    if depth == 0 {
        return 1;
    }
    if !is_playable(board) {
        return 0;
    }
    let ghost b0 = *board;
    let mut list = MoveList::new();
    generate_legal(board, &mut list);
    if depth == 1 {
        let len = list.len();
        proof {
            let c = Seq::new(list@.len(), |i: int| 1int);
            lemma_sum_ones(c);
            assert forall|i: int, mid: Board| 0 <= i < list@.len() && #[trigger] made(b0, list@[i], mid) implies leaf_count(
                mid,
                0,
                c[i],
            ) by {
            }
            assert(legal_generated(b0, Seq::empty(), list@) && saturated_sum(c) == list@.len());
        }
        return len as u64;
    }
    let mut nodes: u64 = 0;
    let n = list.len();
    let mut i: usize = 0;
    let ghost mut counts: Seq<int> = Seq::empty();
    while i < n
        invariant
            i <= n,
            n == list@.len(),
            playable(b0),
            legal_generated(b0, Seq::empty(), list@),
            Board::same_position(*board, b0),
            board.wf(),
            depth >= 2,
            counts.len() == i,
            nodes == saturated_sum(counts),
            forall|j: int, mid: Board|
                0 <= j < i && #[trigger] made(b0, list@[j], mid) ==> leaf_count(
                    mid,
                    (depth - 1) as nat,
                    counts[j],
                ),
        decreases n - i,
    {
        let mv = list.get(i);
        let ghost before = *board;
        proof {
            assert(legal_move(
                b0.spec_mailbox(),
                b0.spec_state(),
                mv.from_idx(),
                mv.to_idx(),
                mv.spec_type(),
            ));
            lemma_pseudo_playable(b0, mv);
        }
        board.make(mv);
        let ghost mid = *board;
        let below = perft(board, depth - 1);
        proof {
            lemma_make_unmake(before, mv, mid, mid);
            board.lemma_wf_layout();
        }
        board.unmake(mv);
        proof {
            lemma_make_unmake(before, mv, mid, *board);
            assert(made(b0, mv, mid));
            assert forall|j: int, m2: Board|
                0 <= j < i + 1 && #[trigger] made(b0, list@[j], m2) implies leaf_count(
                    m2,
                    (depth - 1) as nat,
                    counts.push(below as int)[j],
                ) by {
                if j == i {
                    lemma_made_unique(b0, mv, mid, m2);
                    lemma_leaf_count_same(mid, m2, (depth - 1) as nat, below as int);
                } else {
                    assert(counts.push(below as int)[j] == counts[j]);
                }
            }
            assert(counts.push(below as int).drop_last() =~= counts);
            counts = counts.push(below as int);
        }
        nodes = nodes.saturating_add(below);
        i = i + 1;
    }
    proof {
        assert(legal_generated(b0, Seq::empty(), list@) && saturated_sum(counts) == nodes);
    }
    nodes
}

/// The moves of a divided count, in order.
pub open spec fn divided_moves(r: Seq<(Move, u64)>) -> Seq<Move> {
    r.map_values(|p: (Move, u64)| p.0)
}

/// The entries are in ascending order of their moves' encodings (type, then
/// origin, then destination).
pub open spec fn divided_sorted(r: Seq<(Move, u64)>) -> bool {
    forall|a: int, b: int| 0 <= a <= b < r.len() ==> r[a].0.value() <= r[b].0.value()
}

/// Sorting by encoding sorts by move type code, then origin, then
/// destination.
pub proof fn lemma_encoding_order(a: Move, b: Move)
    ensures
        (a.value() <= b.value()) == (a.value() / 4096 < b.value() / 4096 || (a.value() / 4096
            == b.value() / 4096 && (a.from_idx() < b.from_idx() || (a.from_idx() == b.from_idx()
            && a.to_idx() <= b.to_idx())))),
{
    let x = a.value();
    let y = b.value();
    assert(x / 4096 == x >> 12 && (x / 64) % 64 == (x >> 6) & 63 && x % 64 == x & 63) by (bit_vector);
    assert(y / 4096 == y >> 12 && (y / 64) % 64 == (y >> 6) & 63 && y % 64 == y & 63) by (bit_vector);
    assert((x <= y) == ((x >> 12) < (y >> 12) || ((x >> 12) == (y >> 12) && (((x >> 6) & 63) < ((
        y >> 6) & 63) || (((x >> 6) & 63) == ((y >> 6) & 63) && (x & 63) <= (y & 63)))))) by (bit_vector);
}

/// The entry `e` of a divided count at `depth` on `b` counts the leaf
/// nodes below its move: its count is a count (see [`leaf_count`]) of
/// every position the move leads to.
pub open spec fn counted(b: Board, depth: nat, e: (Move, u64)) -> bool {
    forall|mid: Board| #[trigger] made(b, e.0, mid) ==> leaf_count(mid, (depth - 1) as nat, e.1 as int)
}

/// What holds of every entry of `r0` and of `x` holds of every entry of a
/// sequence holding them.
proof fn lemma_insert_keeps(
    r0: Seq<(Move, u64)>,
    r1: Seq<(Move, u64)>,
    x: (Move, u64),
    p: spec_fn((Move, u64)) -> bool,
)
    requires
        r1.to_multiset() == r0.to_multiset().insert(x),
        p(x),
        forall|k: int| 0 <= k < r0.len() ==> p(#[trigger] r0[k]),
    ensures
        forall|k: int| 0 <= k < r1.len() ==> p(#[trigger] r1[k]),
{
    r1.to_multiset_ensures();
    r0.to_multiset_ensures();
    assert forall|k: int| 0 <= k < r1.len() implies p(#[trigger] r1[k]) by {
        assert(r1.contains(r1[k]));
        assert(r1.to_multiset().count(r1[k]) > 0);
        if r1[k] != x {
            assert(r0.to_multiset().count(r1[k]) > 0);
            assert(r0.contains(r1[k]));
            let j = choose|j: int| 0 <= j < r0.len() && r0[j] == r1[k];
            assert(p(r0[j]));
        }
    }
}

/// The counts of a divided count, added up.
pub open spec fn divided_total(r: Seq<(Move, u64)>) -> int
    decreases r.len(),
{
    if r.len() == 0 {
        0
    } else {
        divided_total(r.drop_last()) + r.last().1
    }
}

/// The sum of `c`.
pub open spec fn plain_sum(c: Seq<int>) -> int
    decreases c.len(),
{
    if c.len() == 0 {
        0
    } else {
        plain_sum(c.drop_last()) + c.last()
    }
}

/// Inserting an entry adds its count to the total.
proof fn lemma_total_insert(r: Seq<(Move, u64)>, k: int, x: (Move, u64))
    requires
        0 <= k <= r.len(),
    ensures
        divided_total(r.insert(k, x)) == divided_total(r) + x.1,
    decreases r.len(),
{
    if k < r.len() {
        assert(r.insert(k, x).drop_last() =~= r.drop_last().insert(k, x));
        assert(r.insert(k, x).last() == r.last());
        lemma_total_insert(r.drop_last(), k, x);
    } else {
        assert(r.insert(k, x).drop_last() =~= r);
    }
}

/// A sum of counts that never passes `u64::MAX` never saturates.
proof fn lemma_unsaturated(c: Seq<int>)
    requires
        forall|i: int| 0 <= i < c.len() ==> c[i] >= 0,
        plain_sum(c) <= u64::MAX,
    ensures
        saturated_sum(c) == plain_sum(c),
    decreases c.len(),
{
    if c.len() > 0 {
        lemma_unsaturated(c.drop_last());
    }
}

/// Inserts `x` into `v`, sorted by move encoding, keeping it sorted.
fn insert_divided(v: &mut Vec<(Move, u64)>, x: (Move, u64))
    requires
        divided_sorted(old(v)@),
    ensures
        divided_sorted(final(v)@),
        final(v)@.to_multiset() == old(v)@.to_multiset().insert(x),
        divided_moves(final(v)@).to_multiset() == divided_moves(old(v)@).to_multiset().insert(x.0),
        exists|k: int| 0 <= k <= old(v)@.len() && final(v)@ == old(v)@.insert(k, x),
{
    let key = x.0.to_bits();
    let mut i: usize = 0;
    while i < v.len() && v[i].0.to_bits() <= key
        invariant
            i <= v@.len(),
            v@ == old(v)@,
            key == x.0.value(),
            forall|j: int| 0 <= j < i ==> v@[j].0.value() <= key,
        decreases v@.len() - i,
    {
        i = i + 1;
    }
    let ghost before = v@;
    v.insert(i, x);
    proof {
        vstd::seq_lib::to_multiset_insert(before, i as int, x);
        assert(divided_moves(v@) =~= divided_moves(before).insert(i as int, x.0));
        vstd::seq_lib::to_multiset_insert(divided_moves(before), i as int, x.0);
        assert forall|a: int, b: int| 0 <= a <= b < v@.len() implies v@[a].0.value() <= v@[b].0.value() by {
            if a < i && b > i {
                assert(before[a].0.value() <= key);
            }
        }
        assert(v@ == before.insert(i as int, x));
    }
}

/// Counts each legal root move's leaf nodes `depth - 1` plies below it (see
/// [`perft`]), listed in ascending order of the moves' encodings, leaving the
/// board as it was.
pub fn perft_divide(board: &mut Board, depth: u32) -> (r: Vec<(Move, u64)>)
    requires
        old(board).wf(),
    ensures
        Board::same_position(*final(board), *old(board)),
        final(board).wf(),
        depth == 0 || !playable(*old(board)) ==> r@.len() == 0,
        divided_sorted(r@),
        depth > 0 && playable(*old(board)) ==> exists|l: Seq<Move>|
            legal_generated(*old(board), Seq::empty(), l) && divided_moves(r@).to_multiset()
                == l.to_multiset(),
        depth == 1 ==> forall|i: int| 0 <= i < r@.len() ==> #[trigger] r@[i].1 == 1,
        forall|i: int| 0 <= i < r@.len() ==> counted(*old(board), depth as nat, #[trigger] r@[i]),
        depth > 0 && playable(*old(board)) && divided_total(r@) <= u64::MAX ==> leaf_count(
            *old(board),
            depth as nat,
            divided_total(r@),
        ),
{
    let mut result: Vec<(Move, u64)> = Vec::new();
    if depth == 0 || !is_playable(board) {
        return result;
    }
    let ghost b0 = *board;
    let mut list = MoveList::new();
    generate_legal(board, &mut list);
    let n = list.len();
    let mut i: usize = 0;
    let ghost mut counts: Seq<int> = Seq::empty();
    proof {
        assert(divided_moves(result@) =~= list@.take(0));
    }
    while i < n
        invariant
            i <= n,
            n == list@.len(),
            depth > 0,
            playable(b0),
            legal_generated(b0, Seq::empty(), list@),
            Board::same_position(*board, b0),
            board.wf(),
            divided_sorted(result@),
            divided_moves(result@).to_multiset() == list@.take(i as int).to_multiset(),
            depth == 1 ==> forall|k: int| 0 <= k < result@.len() ==> #[trigger] result@[k].1 == 1,
            forall|k: int| 0 <= k < result@.len() ==> counted(b0, depth as nat, #[trigger] result@[k]),
            counts.len() == i,
            divided_total(result@) == plain_sum(counts),
            forall|j: int| 0 <= j < counts.len() ==> #[trigger] counts[j] >= 0,
            forall|j: int, mid: Board|
                0 <= j < i && #[trigger] made(b0, list@[j], mid) ==> leaf_count(
                    mid,
                    (depth - 1) as nat,
                    counts[j],
                ),
        decreases n - i,
    {
        let mv = list.get(i);
        let ghost before = *board;
        proof {
            assert(legal_move(
                b0.spec_mailbox(),
                b0.spec_state(),
                mv.from_idx(),
                mv.to_idx(),
                mv.spec_type(),
            ));
            lemma_pseudo_playable(b0, mv);
        }
        board.make(mv);
        let ghost mid = *board;
        let nodes = perft(board, depth - 1);
        proof {
            lemma_make_unmake(before, mv, mid, mid);
            board.lemma_wf_layout();
        }
        board.unmake(mv);
        proof {
            lemma_make_unmake(before, mv, mid, *board);
        }
        let ghost r0 = result@;
        insert_divided(&mut result, (mv, nodes));
        proof {
            assert(list@.take(i + 1) =~= list@.take(i as int).push(mv));
            vstd::seq_lib::to_multiset_build(list@.take(i as int), mv);
            if depth == 1 {
                lemma_insert_keeps(r0, result@, (mv, nodes), |e: (Move, u64)| e.1 == 1);
            }
            assert(made(b0, mv, mid));
            assert forall|m2: Board| #[trigger] made(b0, mv, m2) implies leaf_count(m2, (depth - 1) as nat, nodes as int) by {
                lemma_made_unique(b0, mv, mid, m2);
                lemma_leaf_count_same(mid, m2, (depth - 1) as nat, nodes as int);
            }
            assert(counted(b0, depth as nat, (mv, nodes)));
            lemma_insert_keeps(r0, result@, (mv, nodes), |e: (Move, u64)| counted(b0, depth as nat, e));
            let k = choose|k: int| 0 <= k <= r0.len() && result@ == r0.insert(k, (mv, nodes));
            lemma_total_insert(r0, k, (mv, nodes));
            assert forall|j: int, m2: Board|
                0 <= j < i + 1 && #[trigger] made(b0, list@[j], m2) implies leaf_count(
                    m2,
                    (depth - 1) as nat,
                    counts.push(nodes as int)[j],
                ) by {
                if j == i {
                    lemma_made_unique(b0, mv, mid, m2);
                    lemma_leaf_count_same(mid, m2, (depth - 1) as nat, nodes as int);
                } else {
                    assert(counts.push(nodes as int)[j] == counts[j]);
                }
            }
            assert(counts.push(nodes as int).drop_last() =~= counts);
            counts = counts.push(nodes as int);
        }
        i = i + 1;
    }
    proof {
        assert(list@.take(n as int) =~= list@);
        if divided_total(result@) <= u64::MAX {
            lemma_unsaturated(counts);
            assert(legal_generated(b0, Seq::empty(), list@) && saturated_sum(counts) == divided_total(result@));
        }
    }
    result
}

} // verus!
