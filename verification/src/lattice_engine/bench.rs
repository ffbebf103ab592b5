//! Bookkeeping for the fixed-suite search benchmark: per-position node counts
//! and timings, their totals, and nodes per second. Times are whole
//! microseconds.
use vstd::prelude::*;

verus! {

/// One position's benchmark result.
#[derive(Debug, Clone)]
pub struct BenchEntry {
    /// Human label for the position.
    pub name: String,
    /// Nodes the search visited (including quiescence nodes).
    pub nodes: u64,
    /// Subset of `nodes` spent in quiescence.
    pub qnodes: u64,
    /// Wall-clock time the search took, in microseconds.
    pub elapsed: u64,
}

/// The full benchmark result: one [`BenchEntry`] per suite position.
#[derive(Debug, Clone)]
pub struct BenchReport {
    /// Depth every position was searched to.
    pub depth: u32,
    /// Per-position results, in suite order.
    pub entries: Vec<BenchEntry>,
}

/// The sum of the node counts of the first `n` entries.
pub open spec fn sum_nodes(e: Seq<BenchEntry>, n: int) -> int
    decreases n,
{
    if n <= 0 {
        0
    } else {
        sum_nodes(e, n - 1) + e[n - 1].nodes
    }
}

/// The sum of the quiescence node counts of the first `n` entries.
pub open spec fn sum_qnodes(e: Seq<BenchEntry>, n: int) -> int
    decreases n,
{
    if n <= 0 {
        0
    } else {
        sum_qnodes(e, n - 1) + e[n - 1].qnodes
    }
}

/// The sum of the times of the first `n` entries.
pub open spec fn sum_elapsed(e: Seq<BenchEntry>, n: int) -> int
    decreases n,
{
    if n <= 0 {
        0
    } else {
        sum_elapsed(e, n - 1) + e[n - 1].elapsed
    }
}

/// Partial sums never exceed the full sum.
proof fn lemma_sums_monotone(e: Seq<BenchEntry>, i: int, n: int)
    requires
        0 <= i <= n,
    ensures
        sum_nodes(e, i) <= sum_nodes(e, n),
        sum_qnodes(e, i) <= sum_qnodes(e, n),
        sum_elapsed(e, i) <= sum_elapsed(e, n),
        sum_nodes(e, n) >= 0,
        sum_qnodes(e, n) >= 0,
        sum_elapsed(e, n) >= 0,
    decreases n,
{
    if n > 0 {
        if i < n {
            lemma_sums_monotone(e, i, n - 1);
        } else {
            lemma_sums_monotone(e, n - 1, n - 1);
        }
    }
}

/// Nodes per second, with the time clamped up to 1 microsecond.
pub open spec fn spec_nps(nodes: int, micros: int) -> int {
    nodes * 1_000_000 / (if micros < 1 {
        1
    } else {
        micros
    })
}

/// Nodes per second, clamping time up to 1 microsecond so a sub-microsecond
/// search cannot divide by zero; the result is truncated to 64 bits.
pub fn nps(nodes: u64, elapsed: u64) -> (r: u64)
    ensures
        r == spec_nps(nodes as int, elapsed as int) as u64,
{
    let micros: u128 = if elapsed < 1 {
        1
    } else {
        elapsed as u128
    };
    let n = nodes as u128;
    assert(n * 1_000_000 <= u128::MAX) by (nonlinear_arith)
        requires
            n <= u64::MAX,
    ;
    ((n * 1_000_000) / micros) as u64
}

impl BenchReport {
    /// Total nodes across the suite: the build's bench signature.
    pub fn total_nodes(&self) -> (t: u64)
        requires
            sum_nodes(self.entries@, self.entries@.len() as int) <= u64::MAX,
        ensures
            t == sum_nodes(self.entries@, self.entries@.len() as int),
    {
        let mut t: u64 = 0;
        let mut i: usize = 0;
        while i < self.entries.len()
            invariant
                i <= self.entries@.len(),
                t == sum_nodes(self.entries@, i as int),
                sum_nodes(self.entries@, self.entries@.len() as int) <= u64::MAX,
            decreases self.entries@.len() - i,
        {
            proof {
                lemma_sums_monotone(self.entries@, i + 1, self.entries@.len() as int);
            }
            t = t + self.entries[i].nodes;
            i = i + 1;
        }
        t
    }

    /// Total quiescence nodes across the suite.
    pub fn total_qnodes(&self) -> (t: u64)
        requires
            sum_qnodes(self.entries@, self.entries@.len() as int) <= u64::MAX,
        ensures
            t == sum_qnodes(self.entries@, self.entries@.len() as int),
    {
        let mut t: u64 = 0;
        let mut i: usize = 0;
        while i < self.entries.len()
            invariant
                i <= self.entries@.len(),
                t == sum_qnodes(self.entries@, i as int),
                sum_qnodes(self.entries@, self.entries@.len() as int) <= u64::MAX,
            decreases self.entries@.len() - i,
        {
            proof {
                lemma_sums_monotone(self.entries@, i + 1, self.entries@.len() as int);
            }
            t = t + self.entries[i].qnodes;
            i = i + 1;
        }
        t
    }

    /// Total wall-clock time across the suite, in microseconds.
    pub fn total_time(&self) -> (t: u64)
        requires
            sum_elapsed(self.entries@, self.entries@.len() as int) <= u64::MAX,
        ensures
            t == sum_elapsed(self.entries@, self.entries@.len() as int),
    {
        let mut t: u64 = 0;
        let mut i: usize = 0;
        while i < self.entries.len()
            invariant
                i <= self.entries@.len(),
                t == sum_elapsed(self.entries@, i as int),
                sum_elapsed(self.entries@, self.entries@.len() as int) <= u64::MAX,
            decreases self.entries@.len() - i,
        {
            proof {
                lemma_sums_monotone(self.entries@, i + 1, self.entries@.len() as int);
            }
            t = t + self.entries[i].elapsed;
            i = i + 1;
        }
        t
    }

    /// Nodes per second over the whole suite.
    pub fn nps(&self) -> (r: u64)
        requires
            sum_nodes(self.entries@, self.entries@.len() as int) <= u64::MAX,
            sum_elapsed(self.entries@, self.entries@.len() as int) <= u64::MAX,
        ensures
            r == spec_nps(
                sum_nodes(self.entries@, self.entries@.len() as int),
                sum_elapsed(self.entries@, self.entries@.len() as int),
            ) as u64,
    {
        nps(self.total_nodes(), self.total_time())
    }

    /// Quiescence nodes per second over the whole suite.
    pub fn qnps(&self) -> (r: u64)
        requires
            sum_qnodes(self.entries@, self.entries@.len() as int) <= u64::MAX,
            sum_elapsed(self.entries@, self.entries@.len() as int) <= u64::MAX,
        ensures
            r == spec_nps(
                sum_qnodes(self.entries@, self.entries@.len() as int),
                sum_elapsed(self.entries@, self.entries@.len() as int),
            ) as u64,
    {
        nps(self.total_qnodes(), self.total_time())
    }
}

} // verus!
