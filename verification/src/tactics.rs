//! Tactical test-suite results: what each position's search found, and the
//! figures a suite's report is made of.

use vstd::prelude::*;

pub mod epd;

pub use epd::{Position, parse_epd, run_position};

verus! {

broadcast use vstd::std_specs::vec::group_vec_axioms;

/// How one position turned out.
#[derive(Debug, Clone, PartialEq, Eq)]
pub struct Outcome {
    /// The position's `id`.
    pub id: String,
    /// Whether the final iteration answered correctly.
    pub solved: bool,
    /// First depth whose best move was correct, if any reached one.
    pub first_depth: Option<u32>,
    /// Nodes searched when that depth completed.
    pub first_nodes: Option<u64>,
    /// Total nodes spent on the position.
    pub nodes: u64,
    /// Solved at some depth, then lost again by the last one.
    pub unstable: bool,
}

/// Whether `s` is in ascending order.
pub open spec fn is_sorted(s: Seq<u64>) -> bool {
    forall|i: int, j: int| 0 <= i <= j < s.len() ==> s[i] <= s[j]
}

/// The midpoint of two values, rounded down.
pub open spec fn midpoint(a: u64, b: u64) -> u64 {
    ((a + b) / 2) as u64
}

/// The middle value of a list, or the midpoint of the two middle values of
/// an even-length one; none for an empty list.
pub open spec fn median_of(s: Seq<u64>) -> Option<u64> {
    let n = s.len() as int;
    if n == 0 {
        None
    } else if n % 2 == 1 {
        Some(s[n / 2])
    } else {
        Some(midpoint(s[n / 2 - 1], s[n / 2]))
    }
}

/// The median of a sorted list (see [`median_of`]).
pub fn median(sorted: &[u64]) -> (m: Option<u64>)
    ensures
        m == median_of(sorted@),
{
    let n = sorted.len();
    if n == 0 {
        None
    } else if n % 2 == 1 {
        Some(sorted[n / 2])
    } else {
        let (a, b) = (sorted[n / 2 - 1], sorted[n / 2]);
        Some(a / 2 + b / 2 + (a % 2 + b % 2) / 2)
    }
}

/// The sum of a list of values.
pub open spec fn sum(s: Seq<u64>) -> int
    decreases s.len(),
{
    if s.len() == 0 {
        0
    } else {
        sum(s.drop_last()) + s.last()
    }
}

/// The nodes spent on each outcome.
pub open spec fn nodes_of(s: Seq<Outcome>) -> Seq<u64> {
    s.map_values(|o: Outcome| o.nodes)
}

/// The nodes to first solve of the solved outcomes that record one, in order.
pub open spec fn solve_nodes(s: Seq<Outcome>) -> Seq<u64>
    decreases s.len(),
{
    if s.len() == 0 {
        Seq::empty()
    } else {
        solve_nodes(s.drop_last()) + if s.last().solved && s.last().first_nodes is Some {
            seq![s.last().first_nodes->0]
        } else {
            Seq::empty()
        }
    }
}

/// The depths of first solve of the solved outcomes that record one, in
/// order.
pub open spec fn solve_depths(s: Seq<Outcome>) -> Seq<u64>
    decreases s.len(),
{
    if s.len() == 0 {
        Seq::empty()
    } else {
        solve_depths(s.drop_last()) + if s.last().solved && s.last().first_depth is Some {
            seq![s.last().first_depth->0 as u64]
        } else {
            Seq::empty()
        }
    }
}

/// The ids of the outcomes for which `pick` holds, in order.
pub open spec fn ids_where(s: Seq<Outcome>, pick: spec_fn(Outcome) -> bool) -> Seq<Seq<char>>
    decreases s.len(),
{
    if s.len() == 0 {
        Seq::empty()
    } else {
        ids_where(s.drop_last(), pick) + if pick(s.last()) {
            seq![s.last().id@]
        } else {
            Seq::empty()
        }
    }
}

/// The number of solved outcomes.
pub open spec fn solved_count(s: Seq<Outcome>) -> int
    decreases s.len(),
{
    if s.len() == 0 {
        0
    } else {
        solved_count(s.drop_last()) + if s.last().solved {
            1int
        } else {
            0
        }
    }
}

/// The figures of a suite's report.
#[derive(Debug, Clone, PartialEq, Eq)]
pub struct Summary {
    /// Positions run.
    pub total: usize,
    /// Positions solved.
    pub solved: usize,
    /// Nodes spent on all positions.
    pub nodes: u64,
    /// Nodes to first solve of the solved positions, ascending.
    pub to_solve: Vec<u64>,
    /// Their total.
    pub to_solve_total: u64,
    /// Their median.
    pub to_solve_median: Option<u64>,
    /// How many solved positions record a depth of first solve.
    pub depth_count: usize,
    /// The total of those depths.
    pub depth_total: u128,
    /// The greatest of them.
    pub depth_max: Option<u32>,
    /// Ids of the positions found and then lost.
    pub unstable: Vec<String>,
    /// Ids of the positions not solved.
    pub failed: Vec<String>,
}

/// Inserts `x` into the sorted `v`, keeping it sorted.
fn insert_sorted(v: &mut Vec<u64>, x: u64)
    requires
        is_sorted(old(v)@),
    ensures
        is_sorted(final(v)@),
        final(v)@.to_multiset() == old(v)@.to_multiset().insert(x),
{
    let mut i: usize = 0;
    while i < v.len() && v[i] <= x
        invariant
            i <= v@.len(),
            v@ == old(v)@,
            forall|j: int| 0 <= j < i ==> v@[j] <= x,
        decreases v@.len() - i,
    {
        i = i + 1;
    }
    let ghost before = v@;
    v.insert(i, x);
    proof {
        vstd::seq_lib::to_multiset_insert(before, i as int, x);
        assert forall|a: int, b: int| 0 <= a <= b < v@.len() implies v@[a] <= v@[b] by {
            if a < i && b > i {
                assert(before[a] <= x);
            }
        }
    }
}

/// The values in ascending order.
pub fn sorted_copy(values: &Vec<u64>) -> (r: Vec<u64>)
    ensures
        is_sorted(r@),
        r@.to_multiset() == values@.to_multiset(),
{
    let mut r: Vec<u64> = Vec::new();
    let mut i: usize = 0;
    assert(r@ =~= values@.take(0));
    while i < values.len()
        invariant
            i <= values@.len(),
            is_sorted(r@),
            r@.to_multiset() == values@.take(i as int).to_multiset(),
        decreases values@.len() - i,
    {
        insert_sorted(&mut r, values[i]);
        proof {
            assert(values@.take(i + 1) =~= values@.take(i as int).push(values@[i as int]));
            vstd::seq_lib::to_multiset_build(values@.take(i as int), values@[i as int]);
        }
        i = i + 1;
    }
    assert(values@.take(i as int) =~= values@);
    r
}

/// Collects the figures of a suite's report from its outcomes.
pub fn summarize(outcomes: &Vec<Outcome>) -> (s: Summary)
    requires
        sum(nodes_of(outcomes@)) <= u64::MAX,
        sum(solve_nodes(outcomes@)) <= u64::MAX,
    ensures
        s.total == outcomes@.len(),
        s.solved == solved_count(outcomes@),
        s.nodes == sum(nodes_of(outcomes@)),
        is_sorted(s.to_solve@),
        s.to_solve@.to_multiset() == solve_nodes(outcomes@).to_multiset(),
        s.to_solve_total == sum(solve_nodes(outcomes@)),
        s.to_solve_median == median_of(s.to_solve@),
        s.depth_count == solve_depths(outcomes@).len(),
        s.depth_total == sum(solve_depths(outcomes@)),
        s.depth_max is Some <==> solve_depths(outcomes@).len() > 0,
        s.depth_max matches Some(d) ==> solve_depths(outcomes@).contains(d as u64) && forall|
            k: int,
        | 0 <= k < solve_depths(outcomes@).len() ==> solve_depths(outcomes@)[k] <= d,
        s.unstable@.map_values(|t: String| t@) == ids_where(outcomes@, |o: Outcome| o.unstable),
        s.failed@.map_values(|t: String| t@) == ids_where(outcomes@, |o: Outcome| !o.solved),
{
    let ghost os = outcomes@;
    let mut solved: usize = 0;
    let mut nodes: u64 = 0;
    let mut firsts: Vec<u64> = Vec::new();
    let mut to_solve_total: u64 = 0;
    let mut depth_count: usize = 0;
    let mut depth_total: u128 = 0;
    let mut depth_max: Option<u32> = None;
    let mut unstable: Vec<String> = Vec::new();
    let mut failed: Vec<String> = Vec::new();
    let mut i: usize = 0;
    while i < outcomes.len()
        invariant
            i <= os.len(),
            os == outcomes@,
            sum(nodes_of(os)) <= u64::MAX,
            sum(solve_nodes(os)) <= u64::MAX,
            solved == solved_count(os.take(i as int)),
            solved <= i,
            nodes == sum(nodes_of(os.take(i as int))),
            firsts@ == solve_nodes(os.take(i as int)),
            to_solve_total == sum(solve_nodes(os.take(i as int))),
            depth_count == solve_depths(os.take(i as int)).len(),
            depth_count <= i,
            depth_total == sum(solve_depths(os.take(i as int))),
            depth_total <= 0xffff_ffff * depth_count,
            depth_max is Some <==> depth_count > 0,
            depth_max matches Some(d) ==> solve_depths(os.take(i as int)).contains(d as u64)
                && forall|k: int|
                0 <= k < solve_depths(os.take(i as int)).len() ==> solve_depths(
                    os.take(i as int),
                )[k] <= d,
            unstable@.map_values(|t: String| t@) == ids_where(
                os.take(i as int),
                |o: Outcome| o.unstable,
            ),
            failed@.map_values(|t: String| t@) == ids_where(os.take(i as int), |o: Outcome| !o.solved),
        decreases os.len() - i,
    {
        let o = &outcomes[i];
        let ghost pre = os.take(i as int);
        let ghost next = os.take(i + 1);
        proof {
            assert(next.drop_last() =~= pre);
            assert(next.last() == *o);
            assert(nodes_of(next).drop_last() =~= nodes_of(pre));
            lemma_sum_prefix(nodes_of(os), i + 1);
            assert(nodes_of(os).take(i + 1) =~= nodes_of(next));
            lemma_solve_nodes_prefix(os, i + 1);
            lemma_sum_prefix(solve_nodes(os), solve_nodes(next).len() as int);
            assert(solve_nodes(os).take(solve_nodes(next).len() as int) =~= solve_nodes(next));
        }
        nodes = nodes + o.nodes;
        if o.solved {
            solved = solved + 1;
            if let Some(n) = o.first_nodes {
                proof {
                    let sn = solve_nodes(next);
                    assert(sn == solve_nodes(pre).push(n));
                    assert(sn.drop_last() =~= solve_nodes(pre));
                }
                firsts.push(n);
                to_solve_total = to_solve_total + n;
            }
            if let Some(d) = o.first_depth {
                proof {
                    assert(depth_total + d <= 0xffff_ffff * (depth_count + 1)) by (nonlinear_arith)
                        requires
                            depth_total <= 0xffff_ffff * depth_count,
                            d <= 0xffff_ffff,
                    ;
                    assert(0xffff_ffff * (depth_count + 1) <= 0xffff_ffff * 0x1_0000_0000_0000_0000int) by (nonlinear_arith)
                        requires
                            depth_count < usize::MAX,
                            usize::MAX <= 0xffff_ffff_ffff_ffff,
                    ;
                }
                depth_count = depth_count + 1;
                depth_total = depth_total + d as u128;
                depth_max = match depth_max {
                    Some(m) => Some(
                        if d > m {
                            d
                        } else {
                            m
                        },
                    ),
                    None => Some(d),
                };
                proof {
                    let ds = solve_depths(next);
                    assert(ds == solve_depths(pre).push(d as u64));
                    assert(ds.drop_last() =~= solve_depths(pre));
                    assert(ds[ds.len() - 1] == d as u64);
                    let dm = depth_max->0;
                    if dm != d {
                        assert(solve_depths(pre).contains(dm as u64));
                        let w = choose|w: int| 0 <= w < solve_depths(pre).len() && solve_depths(pre)[w] == dm as u64;
                        assert(ds[w] == dm as u64);
                    }
                    assert forall|k: int| 0 <= k < ds.len() implies ds[k] <= dm by {
                        if k < ds.len() - 1 {
                            assert(ds[k] == solve_depths(pre)[k]);
                        }
                    }
                }
            }
        } else {
            failed.push(o.id.clone());
        }
        if o.unstable {
            unstable.push(o.id.clone());
        }
        proof {
            assert(firsts@ =~= solve_nodes(next));
            assert(unstable@.map_values(|t: String| t@) =~= ids_where(next, |o: Outcome| o.unstable));
            assert(failed@.map_values(|t: String| t@) =~= ids_where(next, |o: Outcome| !o.solved));
            if !(o.solved && o.first_depth is Some) {
                assert(solve_depths(next) =~= solve_depths(pre));
            }
        }
        i = i + 1;
    }
    assert(os.take(i as int) =~= os);
    let to_solve = sorted_copy(&firsts);
    let to_solve_median = median(to_solve.as_slice());
    Summary {
        total: outcomes.len(),
        solved,
        nodes,
        to_solve,
        to_solve_total,
        to_solve_median,
        depth_count,
        depth_total,
        depth_max,
        unstable,
        failed,
    }
}

/// The sum of a prefix of values is at most the sum of all of them.
proof fn lemma_sum_prefix(s: Seq<u64>, k: int)
    requires
        0 <= k <= s.len(),
    ensures
        0 <= sum(s.take(k)) <= sum(s),
    decreases s.len() - k,
{
    if k < s.len() {
        lemma_sum_prefix(s, k + 1);
        assert(s.take(k + 1).drop_last() =~= s.take(k));
        lemma_sum_nonneg(s.take(k));
    } else {
        assert(s.take(k) =~= s);
        lemma_sum_nonneg(s);
    }
}

/// A sum of values is at least zero.
proof fn lemma_sum_nonneg(s: Seq<u64>)
    ensures
        sum(s) >= 0,
    decreases s.len(),
{
    if s.len() > 0 {
        lemma_sum_nonneg(s.drop_last());
    }
}

/// The solve nodes of a prefix of outcomes are a prefix of the solve nodes.
proof fn lemma_solve_nodes_prefix(s: Seq<Outcome>, k: int)
    requires
        0 <= k <= s.len(),
    ensures
        solve_nodes(s.take(k)).len() <= solve_nodes(s).len(),
        solve_nodes(s).take(solve_nodes(s.take(k)).len() as int) == solve_nodes(s.take(k)),
    decreases s.len() - k,
{
    if k < s.len() {
        lemma_solve_nodes_prefix(s, k + 1);
        assert(s.take(k + 1).drop_last() =~= s.take(k));
        let a = solve_nodes(s.take(k));
        let b = solve_nodes(s.take(k + 1));
        assert(b.take(a.len() as int) =~= a);
        assert(solve_nodes(s).take(a.len() as int) =~= solve_nodes(s).take(b.len() as int).take(
            a.len() as int,
        ));
    } else {
        assert(s.take(k) =~= s);
        assert(solve_nodes(s).take(solve_nodes(s).len() as int) =~= solve_nodes(s));
    }
}

} // verus!
