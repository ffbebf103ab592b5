//! Sums of a per-square quantity over a set of squares, and the facts that
//! let a loop over a bitboard's squares (lowest first) compute one.
use vstd::prelude::*;
use crate::board::{Bitboard, Square};
use crate::board::bitboard::is_lowest;

verus! {

/// `f(0) + f(1) + ... + f(n - 1)`.
pub open spec fn square_sum(f: spec_fn(int) -> int, n: int) -> int
    decreases n,
{
    if n <= 0 {
        0
    } else {
        square_sum(f, n - 1) + f(n - 1)
    }
}

/// The sum of `f` over the squares of `s` below `n`.
pub open spec fn set_sum(s: Set<int>, f: spec_fn(int) -> int, n: int) -> int {
    square_sum(|i: int| if s.contains(i) { f(i) } else { 0 }, n)
}

/// The sum over all 64 squares of `s`.
pub open spec fn board_sum(s: Set<int>, f: spec_fn(int) -> int) -> int {
    set_sum(s, f, 64)
}

/// A sum over a stretch holding no square of `s` does not change.
pub proof fn lemma_sum_skip(s: Set<int>, f: spec_fn(int) -> int, a: int, b: int)
    requires
        0 <= a <= b,
        forall|i: int| a <= i < b ==> !s.contains(i),
    ensures
        set_sum(s, f, b) == set_sum(s, f, a),
    decreases b - a,
{
    if b > a {
        lemma_sum_skip(s, f, a, b - 1);
    }
}

/// Bounds on each term bound the sum.
pub proof fn lemma_sum_bound(s: Set<int>, f: spec_fn(int) -> int, n: int, lo: int, hi: int)
    requires
        0 <= n,
        lo <= 0 <= hi,
        forall|i: int| 0 <= i < n && s.contains(i) ==> lo <= #[trigger] f(i) <= hi,
    ensures
        n * lo <= set_sum(s, f, n) <= n * hi,
    decreases n,
{
    if n > 0 {
        lemma_sum_bound(s, f, n - 1, lo, hi);
        assert((n - 1) * lo + lo == n * lo) by (nonlinear_arith);
        assert((n - 1) * hi + hi == n * hi) by (nonlinear_arith);
    }
}

/// Where a loop over `s` stands: `rest` holds the squares of `s` from `lo`
/// on, and `acc` the sum of `f` over those below it.
pub open spec fn summing(s: Set<int>, rest: Set<int>, lo: int, acc: int, f: spec_fn(int) -> int) -> bool {
    &&& 0 <= lo <= 64
    &&& forall|i: int| #[trigger] rest.contains(i) <==> (s.contains(i) && lo <= i < 64)
    &&& acc == set_sum(s, f, lo)
}

/// A loop over the squares of `s` starts with nothing summed.
pub proof fn lemma_summing_start(s: Set<int>, f: spec_fn(int) -> int)
    requires
        forall|i: int| #[trigger] s.contains(i) ==> 0 <= i < 64,
    ensures
        summing(s, s, 0, 0, f),
{
}

/// Taking the lowest square `sq` of what is left and adding its term moves
/// the loop past `sq`.
pub proof fn lemma_summing_step(
    s: Set<int>,
    rest: Set<int>,
    lo: int,
    acc: int,
    f: spec_fn(int) -> int,
    sq: int,
)
    requires
        summing(s, rest, lo, acc, f),
        is_lowest(rest, sq),
    ensures
        summing(s, rest.remove(sq), sq + 1, acc + f(sq), f),
        s.contains(sq),
        0 <= sq < 64,
{
    assert forall|i: int| lo <= i < sq implies !s.contains(i) by {
        if s.contains(i) {
            assert(rest.contains(i));
        }
    }
    lemma_sum_skip(s, f, lo, sq);
}

/// A loop with nothing left has summed all of `s`.
pub proof fn lemma_summing_done(s: Set<int>, rest: Set<int>, lo: int, acc: int, f: spec_fn(int) -> int)
    requires
        summing(s, rest, lo, acc, f),
        rest == Set::<int>::empty(),
        forall|i: int| #[trigger] s.contains(i) ==> 0 <= i < 64,
    ensures
        acc == board_sum(s, f),
{
    assert forall|i: int| lo <= i < 64 implies !s.contains(i) by {
        if s.contains(i) {
            assert(rest.contains(i));
        }
    }
    lemma_sum_skip(s, f, lo, 64);
}

} // verus!
