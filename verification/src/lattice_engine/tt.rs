//! Transposition table: maps a position's [`ZobristHash`] to what a previous
//! search learned. A flat vector of two-slot buckets indexed by the low hash
//! bits; slot 0 prefers depth, slot 1 always takes the newest shallow entry.
use vstd::prelude::*;
use crate::lattice_board::{Move, ZobristHash};

verus! {

broadcast use vstd::std_specs::vec::group_vec_axioms;

/// What an entry's stored score means.
#[derive(Clone, Copy, PartialEq, Eq, Structural, Debug)]
pub enum Bound {
    /// The true score: the node was searched inside `(alpha, beta)`.
    Exact,
    /// A lower bound: the true score is at least the stored one.
    Lower,
    /// An upper bound: the true score is at most the stored one.
    Upper,
}

/// Threshold from which a score is a mate score: `MATE - MAX_PLY`.
pub const MATE_BOUND: i32 = 29_936;

/// The node-relative form of a root-relative score found `ply` plies from
/// the root: a mate score moves `ply` further from zero, other scores stay.
pub open spec fn tt_shift(score: int, ply: int) -> int {
    if score >= MATE_BOUND {
        score + ply
    } else if score <= -MATE_BOUND {
        score - ply
    } else {
        score
    }
}

/// The root-relative form of a stored node-relative score read at `ply`.
pub open spec fn tt_unshift(score: int, ply: int) -> int {
    if score >= MATE_BOUND {
        score - ply
    } else if score <= -MATE_BOUND {
        score + ply
    } else {
        score
    }
}

/// Make a root-relative score node-relative for storage (truncated to `i16`).
pub fn score_to_tt(score: i32, ply: u32) -> (r: i16)
    requires
        ply <= i32::MAX,
        score >= MATE_BOUND ==> score + ply <= i32::MAX,
        score <= -MATE_BOUND ==> score - ply >= i32::MIN,
    ensures
        r == tt_shift(score as int, ply as int) as i16,
{
    let p = ply as i32;
    let s = if score >= MATE_BOUND {
        score + p
    } else if score <= -MATE_BOUND {
        score - p
    } else {
        score
    };
    s as i16
}

/// Inverse of [`score_to_tt`]: turn a stored node-relative score back into a
/// root-relative one for the searcher at `ply`.
pub fn score_from_tt(score: i16, ply: u32) -> (r: i32)
    requires
        ply <= 60000,
    ensures
        r == tt_unshift(score as int, ply as int),
{
    let s = score as i32;
    let p = ply as i32;
    if s >= MATE_BOUND {
        s - p
    } else if s <= -MATE_BOUND {
        s + p
    } else {
        s
    }
}

/// Storing a score at some ply and reading it back at the same ply gives the
/// score back, whenever the stored form fits in an `i16`.
pub proof fn lemma_tt_score_round_trip(score: int, ply: int)
    requires
        ply >= 0,
        i16::MIN <= tt_shift(score, ply) <= i16::MAX,
    ensures
        tt_unshift(tt_shift(score, ply) as i16 as int, ply) == score,
{
}

/// One stored position.
#[derive(Clone, Copy, Debug)]
pub struct Entry {
    key: u64,
    best: Option<Move>,
    /// Score with the mate-distance correction applied (node-relative).
    score: i16,
    depth: u8,
    bound: Bound,
    /// Search generation that wrote this; `0` marks an empty slot.
    age: u8,
}

impl Entry {
    /// The full hash the entry was stored under.
    pub closed spec fn spec_key(self) -> u64 {
        self.key
    }

    /// The recorded best move.
    pub closed spec fn spec_best(self) -> Option<Move> {
        self.best
    }

    /// The stored node-relative score.
    pub closed spec fn spec_score(self) -> i16 {
        self.score
    }

    /// The remaining depth the score was searched to.
    pub closed spec fn spec_depth(self) -> u8 {
        self.depth
    }

    /// The stored bound.
    pub closed spec fn spec_bound(self) -> Bound {
        self.bound
    }

    /// The generation that wrote the entry (`0`: empty slot).
    pub closed spec fn spec_age(self) -> u8 {
        self.age
    }

    /// An empty slot.
    fn empty() -> (e: Entry)
        ensures
            e.spec_age() == 0,
            e.spec_key() == 0,
            e.spec_depth() == 0,
    {
        Entry { key: 0, best: None, score: 0, depth: 0, bound: Bound::Exact, age: 0 }
    }

    /// The best move recorded for this position, if any.
    pub fn best(&self) -> (m: Option<Move>)
        ensures
            m == self.spec_best(),
    {
        self.best
    }

    /// Remaining depth this score was searched to.
    pub fn depth(&self) -> (d: u8)
        ensures
            d == self.spec_depth(),
    {
        self.depth
    }

    /// What [`Self::score`] means at this node.
    pub fn bound(&self) -> (b: Bound)
        ensures
            b == self.spec_bound(),
    {
        self.bound
    }

    /// The stored score, corrected back to be relative to `ply` plies from
    /// the root.
    pub fn score(&self, ply: u32) -> (s: i32)
        requires
            ply <= 60000,
        ensures
            s == tt_unshift(self.spec_score() as int, ply as int),
    {
        score_from_tt(self.score, ply)
    }
}

/// A 2-slot bucket: slot 0 is depth-preferred, slot 1 always-replace.
#[derive(Clone, Copy, Debug)]
struct Bucket {
    entries: [Entry; 2],
}

/// A fixed-size transposition table, reused across moves.
pub struct TranspositionTable {
    buckets: Vec<Bucket>,
    /// `nbuckets - 1`; `nbuckets` is a power of two so indexing is one mask.
    mask: u64,
    /// Current search generation; never `0` (that marks empty).
    generation: u8,
}

/// Whether `n` is a power of two.
pub open spec fn is_pow2(n: int) -> bool
    decreases n,
{
    if n <= 0 {
        false
    } else if n == 1 {
        true
    } else {
        n % 2 == 0 && is_pow2(n / 2)
    }
}

/// The largest power of two not above `raw` (`raw >= 1`), by doubling.
fn floor_pow2(raw: usize) -> (n: usize)
    requires
        raw >= 1,
    ensures
        1 <= n <= raw,
        n > raw / 2,
        is_pow2(n as int),
{
    let mut n: usize = 1;
    while n <= raw / 2
        invariant
            1 <= n <= raw,
            is_pow2(n as int),
        decreases raw - n,
    {
        n = n * 2;
    }
    n
}

impl TranspositionTable {
    /// The table is consistent: a power-of-two bucket count `mask + 1`, and a
    /// nonzero generation.
    pub closed spec fn wf(self) -> bool {
        &&& self.buckets@.len() == self.mask + 1
        &&& self.mask < usize::MAX
        &&& is_pow2(self.buckets@.len() as int)
        &&& self.generation != 0
    }

    /// The number of buckets.
    pub closed spec fn num_buckets(self) -> nat {
        self.buckets@.len()
    }

    /// The current search generation.
    pub closed spec fn spec_generation(self) -> u8 {
        self.generation
    }

    /// The bucket a key maps to: its low bits.
    pub closed spec fn bucket_of(self, key: u64) -> int {
        (key & self.mask) as int
    }

    /// The entry in slot `slot` of bucket `b`.
    pub closed spec fn slot(self, b: int, slot: int) -> Entry {
        self.buckets@[b].entries@[slot]
    }

    /// What a probe of `key` finds: the first live slot of its bucket
    /// holding `key`.
    pub open spec fn lookup(self, key: u64) -> Option<Entry> {
        let b = self.bucket_of(key);
        if self.slot(b, 0).spec_age() != 0 && self.slot(b, 0).spec_key() == key {
            Some(self.slot(b, 0))
        } else if self.slot(b, 1).spec_age() != 0 && self.slot(b, 1).spec_key() == key {
            Some(self.slot(b, 1))
        } else {
            None
        }
    }

    /// A key's bucket is in range.
    pub proof fn lemma_bucket_range(self, key: u64)
        requires
            self.wf(),
        ensures
            0 <= self.bucket_of(key) < self.num_buckets(),
    {
        crate::bits::lemma_u64_bit_at(key, self.mask, 0, 0);
    }

    /// The bucket count for about `megabytes` MB: the largest power of two of
    /// 32-byte buckets not above the budget, and at least one.
    pub open spec fn buckets_for(megabytes: usize) -> int {
        let mb = if megabytes < 1 { 1 } else { megabytes as int };
        let raw = mb * 1024 * 1024 / 32;
        raw
    }

    /// A table sized to about `megabytes` MB (rounded down to a power-of-two
    /// bucket count, so it never exceeds the budget). Minimum one bucket.
    pub fn new(megabytes: usize) -> (tt: TranspositionTable)
        requires
            megabytes * 1024 * 1024 <= usize::MAX,
        ensures
            tt.wf(),
            tt.num_buckets() <= Self::buckets_for(megabytes),
            2 * tt.num_buckets() > Self::buckets_for(megabytes),
            tt.spec_generation() == 1,
            forall|k: u64| tt.lookup(k) is None,
    {
        let mut tt = TranspositionTable { buckets: Vec::new(), mask: 0, generation: 1 };
        tt.resize(megabytes);
        tt
    }

    /// Reallocate to about `megabytes` MB and clear.
    pub fn resize(&mut self, megabytes: usize)
        requires
            megabytes * 1024 * 1024 <= usize::MAX,
        ensures
            final(self).wf(),
            final(self).num_buckets() <= Self::buckets_for(megabytes),
            2 * final(self).num_buckets() > Self::buckets_for(megabytes),
            final(self).spec_generation() == 1,
            forall|k: u64| final(self).lookup(k) is None,
    {
        let mb = if megabytes < 1 {
            1
        } else {
            megabytes
        };
        let bytes = mb * 1024 * 1024;
        let raw0 = bytes / 32;
        let raw = if raw0 < 1 {
            1
        } else {
            raw0
        };
        let nbuckets = floor_pow2(raw);
        let e = Entry::empty();
        let empty = Bucket { entries: [e, e] };
        let mut buckets: Vec<Bucket> = Vec::new();
        let mut i: usize = 0;
        while i < nbuckets
            invariant
                i <= nbuckets,
                buckets@.len() == i,
                forall|j: int| 0 <= j < i ==> #[trigger] buckets@[j] == empty,
            decreases nbuckets - i,
        {
            buckets.push(empty);
            i = i + 1;
        }
        self.buckets = buckets;
        self.mask = (nbuckets - 1) as u64;
        self.generation = 1;
        proof {
            assert forall|k: u64| self.lookup(k) is None by {
                self.lemma_bucket_range(k);
            }
        }
    }

    /// Wipe every entry (a new game), keeping the current allocation.
    pub fn clear(&mut self)
        requires
            old(self).wf(),
        ensures
            final(self).wf(),
            final(self).num_buckets() == old(self).num_buckets(),
            final(self).spec_generation() == 1,
            forall|k: u64| final(self).lookup(k) is None,
    {
        let e = Entry::empty();
        let empty = Bucket { entries: [e, e] };
        let n = self.buckets.len();
        let mut i: usize = 0;
        while i < n
            invariant
                i <= n,
                n == self.buckets@.len(),
                self.buckets@.len() == old(self).buckets@.len(),
                self.mask == old(self).mask,
                self.generation == old(self).generation,
                forall|j: int| 0 <= j < i ==> #[trigger] self.buckets@[j] == empty,
            decreases n - i,
        {
            self.buckets.set(i, empty);
            i = i + 1;
        }
        self.generation = 1;
        proof {
            assert forall|k: u64| self.lookup(k) is None by {
                self.lemma_bucket_range(k);
            }
        }
    }

    /// Begin a new search: advance the generation, skipping `0`.
    pub fn new_search(&mut self)
        requires
            old(self).wf(),
        ensures
            final(self).wf(),
            final(self).spec_generation() == (if old(self).spec_generation() == 255 {
                1
            } else {
                old(self).spec_generation() + 1
            }),
            forall|b: int, s: int| #[trigger] final(self).slot(b, s) == old(self).slot(b, s),
            forall|k: u64| #[trigger] final(self).lookup(k) == old(self).lookup(k),
            forall|k: u64| #[trigger] final(self).bucket_of(k) == old(self).bucket_of(k),
    {
        self.generation = self.generation.wrapping_add(1);
        if self.generation == 0 {
            self.generation = 1;
        }
    }

    /// Look up `key`: a copy of the first live slot of its bucket holding it.
    pub fn probe(&self, key: ZobristHash) -> (r: Option<Entry>)
        requires
            self.wf(),
        ensures
            r == self.lookup(key.value()),
    {
        let k = key.get();
        proof {
            self.lemma_bucket_range(k);
        }
        let bucket = &self.buckets[(k & self.mask) as usize];
        let e0 = bucket.entries[0];
        if e0.age != 0 && e0.key == k {
            return Some(e0);
        }
        let e1 = bucket.entries[1];
        if e1.age != 0 && e1.key == k {
            return Some(e1);
        }
        None
    }

    /// Record a search result for `key`, mate-distance corrected for `ply`.
    /// The slot is the one already holding `key`, else slot 0 when the new
    /// entry is at least as deep or slot 0 is from another generation, else
    /// slot 1.
    pub fn store(
        &mut self,
        key: ZobristHash,
        best: Option<Move>,
        score: i32,
        depth: u8,
        bound: Bound,
        ply: u32,
    )
        requires
            old(self).wf(),
            ply <= i32::MAX,
            score >= MATE_BOUND ==> score + ply <= i32::MAX,
            score <= -MATE_BOUND ==> score - ply >= i32::MIN,
        ensures
            final(self).wf(),
            final(self).num_buckets() == old(self).num_buckets(),
            final(self).spec_generation() == old(self).spec_generation(),
            forall|k: u64| #[trigger] final(self).bucket_of(k) == old(self).bucket_of(k),
            ({
                let k = key.value();
                let b = old(self).bucket_of(k);
                let s0 = old(self).slot(b, 0);
                let s1 = old(self).slot(b, 1);
                let s = if s0.spec_key() == k {
                    0int
                } else if s1.spec_key() == k {
                    1int
                } else if depth >= s0.spec_depth() || s0.spec_age() != old(self).spec_generation() {
                    0int
                } else {
                    1int
                };
                let e = final(self).slot(b, s);
                &&& e.spec_key() == k
                &&& e.spec_best() == best
                &&& e.spec_score() == tt_shift(score as int, ply as int) as i16
                &&& e.spec_depth() == depth
                &&& e.spec_bound() == bound
                &&& e.spec_age() == old(self).spec_generation()
                &&& final(self).slot(b, 1 - s) == old(self).slot(b, 1 - s)
                &&& forall|c: int, t: int|
                    0 <= c < old(self).num_buckets() && c != b && 0 <= t < 2
                        ==> #[trigger] final(self).slot(c, t) == old(self).slot(c, t)
            }),
            final(self).lookup(key.value()) is Some,
    {
        let k = key.get();
        let age = self.generation;
        let stored = score_to_tt(score, ply);
        let entry = Entry { key: k, best, score: stored, depth, bound, age };
        assert(entry.spec_score() == tt_shift(score as int, ply as int) as i16);
        proof {
            self.lemma_bucket_range(k);
        }
        let idx = (k & self.mask) as usize;
        let mut bucket = self.buckets[idx];
        let s0 = bucket.entries[0];
        let s1 = bucket.entries[1];
        if s0.key == k {
            bucket.entries[0] = entry;
        } else if s1.key == k {
            bucket.entries[1] = entry;
        } else if entry.depth >= s0.depth || s0.age != age {
            bucket.entries[0] = entry;
        } else {
            bucket.entries[1] = entry;
        }
        self.buckets.set(idx, bucket);
    }
}

/// A probe right after a store of the same key finds the stored entry: its
/// best move, depth and bound, and, read at the ply it was stored from, its
/// score whenever the stored form fits in an `i16`.
pub proof fn lemma_probe_after_store(
    before: TranspositionTable,
    after: TranspositionTable,
    key: ZobristHash,
    best: Option<Move>,
    score: i32,
    depth: u8,
    bound: Bound,
    ply: u32,
)
    requires
        before.wf(),
        after.wf(),
        after.spec_generation() == before.spec_generation(),
        forall|k: u64| #[trigger] after.bucket_of(k) == before.bucket_of(k),
        ({
            let k = key.value();
            let b = before.bucket_of(k);
            let s0 = before.slot(b, 0);
            let s1 = before.slot(b, 1);
            let s = if s0.spec_key() == k {
                0int
            } else if s1.spec_key() == k {
                1int
            } else if depth >= s0.spec_depth() || s0.spec_age() != before.spec_generation() {
                0int
            } else {
                1int
            };
            let e = after.slot(b, s);
            &&& e.spec_key() == k
            &&& e.spec_best() == best
            &&& e.spec_score() == tt_shift(score as int, ply as int) as i16
            &&& e.spec_depth() == depth
            &&& e.spec_bound() == bound
            &&& e.spec_age() == before.spec_generation()
            &&& after.slot(b, 1 - s) == before.slot(b, 1 - s)
        }),
        i16::MIN <= tt_shift(score as int, ply as int) <= i16::MAX,
    ensures
        after.lookup(key.value()) is Some,
        after.lookup(key.value())->0.spec_best() == best,
        after.lookup(key.value())->0.spec_depth() == depth,
        after.lookup(key.value())->0.spec_bound() == bound,
        tt_unshift(after.lookup(key.value())->0.spec_score() as int, ply as int) == score,
{
    lemma_tt_score_round_trip(score as int, ply as int);
}

} // verus!
