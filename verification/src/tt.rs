//! Transposition table: a fixed number of slots, each holding a position's
//! key XORed with a packed data word beside the data word itself, so that a
//! slot whose key does not come back is a miss.

use vstd::prelude::*;
use crate::board::moves::valid_move_bits;
use crate::board::Move;

verus! {

broadcast use vstd::std_specs::vec::group_vec_axioms;

/// Bytes per slot: a key-xor word beside a data word.
pub const SLOT_BYTES: usize = 16;

/// Default table size in mebibytes.
pub const DEFAULT_MB: usize = 16;

/// Cap on the index width, so that an absurd size cannot ask for more than
/// `1 << 32` slots.
pub const MAX_BITS: u32 = 32;

/// What a stored score says about the true score.
#[derive(Debug, Clone, Copy, PartialEq, Eq, Structural)]
pub enum Bound {
    /// The search window was not truncated: the score is the true score.
    Exact,
    /// A beta cutoff truncated the search: the true score is at least this.
    Lower,
    /// No move beat alpha: the true score is at most this.
    Upper,
}

/// The two-bit code of a bound.
pub open spec fn bound_code(b: Bound) -> u64 {
    match b {
        Bound::Exact => 0,
        Bound::Lower => 1,
        Bound::Upper => 2,
    }
}

/// The bound with code `c` (`3` reads as `Upper`).
pub open spec fn bound_of(c: u64) -> Bound {
    if c == 0 {
        Bound::Exact
    } else if c == 1 {
        Bound::Lower
    } else {
        Bound::Upper
    }
}

impl Bound {
    /// The bound whose code is in the low two bits of `bits`.
    fn from_bits(bits: u64) -> (b: Bound)
        ensures
            b == bound_of(bits & 3),
    {
        match bits & 3 {
            0 => Bound::Exact,
            1 => Bound::Lower,
            _ => Bound::Upper,
        }
    }

    /// The bound's two-bit code.
    fn code(self) -> (c: u64)
        ensures
            c == bound_code(self),
    {
        match self {
            Bound::Exact => 0,
            Bound::Lower => 1,
            Bound::Upper => 2,
        }
    }
}

/// Why a probe found what it found.
#[derive(Debug, Clone, Copy, PartialEq, Eq, Structural)]
pub enum Miss {
    /// The slot held this position.
    Hit,
    /// The slot was never written, so nothing was displaced.
    Empty,
    /// The slot held a different position, which this one would evict.
    Collision,
}

/// A probed entry.
#[derive(Debug, Clone, Copy)]
pub struct Entry {
    /// Score as stored, with mate distances relative to the entry's own node.
    pub score: i32,
    /// Best move found, if one was recorded.
    pub best_move: Option<Move>,
    /// Remaining depth this entry was searched to.
    pub depth: u32,
    /// What the score says about the true score.
    pub bound: Bound,
}

/// The packed data word of an entry: the score's low 16 bits, the move's
/// bits above them, the depth (capped at 255) from bit 32, the bound from
/// bit 40 and the generation's low byte from bit 42.
pub open spec fn pack(score: i32, move_bits: u16, depth: u32, bound: Bound, generation: u64) -> u64 {
    (score as i16 as u16 as u64) | ((move_bits as u64) << 16u64) | ((if depth > 255 {
        255u64
    } else {
        depth as u64
    }) << 32u64) | (bound_code(bound) << 40u64) | ((generation & 0xff) << 42u64)
}

/// The score a data word holds.
pub open spec fn data_score(data: u64) -> i32 {
    (data & 0xffff) as u16 as i16 as i32
}

/// The move bits a data word holds.
pub open spec fn data_move(data: u64) -> u16 {
    ((data >> 16u64) & 0xffff) as u16
}

/// The depth a data word holds.
pub open spec fn data_depth(data: u64) -> u32 {
    ((data >> 32u64) & 0xff) as u32
}

/// The bound a data word holds.
pub open spec fn data_bound(data: u64) -> Bound {
    bound_of((data >> 40u64) & 3)
}

/// Unpacking a packed word gives back its fields.
pub proof fn lemma_unpack(score: i32, move_bits: u16, depth: u32, bound: Bound, generation: u64)
    ensures
        ({
            let data = pack(score, move_bits, depth, bound, generation);
            &&& data_score(data) == score as i16 as i32
            &&& data_move(data) == move_bits
            &&& data_depth(data) == if depth > 255 {
                255
            } else {
                depth
            }
            &&& data_bound(data) == bound
        }),
{
    let s = score as i16 as u16 as u64;
    let m = move_bits as u64;
    let d: u64 = if depth > 255 {
        255
    } else {
        depth as u64
    };
    let b = bound_code(bound);
    let g = generation;
    lemma_fields(s, m, d, b, g);
    lemma_score_bits(score);
}

/// The fields of a word built from disjoint pieces.
proof fn lemma_fields(s: u64, m: u64, d: u64, b: u64, g: u64)
    by (bit_vector)
    requires
        s < 0x10000,
        m < 0x10000,
        d < 256,
        b < 3,
    ensures
        ({
            let data = s | (m << 16u64) | (d << 32u64) | (b << 40u64) | ((g & 0xff) << 42u64);
            &&& data & 0xffff == s
            &&& (data >> 16u64) & 0xffff == m
            &&& (data >> 32u64) & 0xff == d
            &&& (data >> 40u64) & 3 == b
        }),
{
}

/// Masked fields are small.
proof fn lemma_masks(x: u64)
    by (bit_vector)
    ensures
        x & 0xff <= 0xff,
        x & 0xffff <= 0xffff,
        x & 3 <= 3,
{
}

/// A score's low 16 bits read back as the score truncated to 16 bits.
proof fn lemma_score_bits(score: i32)
    by (bit_vector)
    ensures
        score as i16 as u16 as u64 as u16 as i16 as i32 == score as i16 as i32,
        (score as i16 as u16 as u64) < 0x10000,
{
}

/// A lockless fixed-size transposition table: `1 << bits` slots, each a
/// key-xor word beside a data word, and a search generation.
#[derive(Debug)]
pub struct TranspositionTable {
    slots: Vec<(u64, u64)>,
    bits: u32,
    generation: u64,
}

/// The number of index bits for a table of `entries` entries: the position
/// of the highest set bit, capped at [`MAX_BITS`] (0 for no entries).
pub open spec fn index_bits(entries: int) -> int
    decreases entries,
{
    if entries <= 1 {
        0
    } else {
        let b = index_bits(entries / 2) + 1;
        if b > MAX_BITS {
            MAX_BITS as int
        } else {
            b
        }
    }
}

/// The slot a key goes to in a table with `bits` index bits: the key's top
/// `bits` bits.
pub open spec fn slot_index(bits: u32, key: u64) -> int {
    if bits == 0 {
        0
    } else {
        (key >> ((64 - bits) as u64)) as int
    }
}

/// What probing the slots `slots` (with `bits` index bits) for `key` finds.
pub open spec fn probe_result(slots: Seq<(u64, u64)>, bits: u32, key: u64) -> (Option<(i32, Option<u16>, u32, Bound)>, Miss) {
    let (k, data) = slots[slot_index(bits, key)];
    if data == 0 {
        (None, Miss::Empty)
    } else if k ^ data != key {
        (None, Miss::Collision)
    } else {
        (
            Some(
                (
                    data_score(data),
                    if valid_move_bits(data_move(data)) {
                        Some(data_move(data))
                    } else {
                        None
                    },
                    data_depth(data),
                    data_bound(data),
                ),
            ),
            Miss::Hit,
        )
    }
}

/// The slots after storing an entry for `key` (see
/// [`TranspositionTable::store`]).
pub open spec fn store_result(
    slots: Seq<(u64, u64)>,
    bits: u32,
    generation: u64,
    key: u64,
    score: i32,
    move_bits: u16,
    depth: u32,
    bound: Bound,
) -> Seq<(u64, u64)> {
    let i = slot_index(bits, key);
    let (k, existing) = slots[i];
    let same_position = existing != 0 && k ^ existing == key;
    let data = pack(score, move_bits, depth, bound, generation);
    if (same_position && data_depth(existing) > depth) || data == 0 {
        slots
    } else {
        slots.update(i, (key ^ data, data))
    }
}

impl TranspositionTable {
    /// The slots.
    pub closed spec fn spec_slots(self) -> Seq<(u64, u64)> {
        self.slots@
    }

    /// The index width.
    pub closed spec fn spec_bits(self) -> u32 {
        self.bits
    }

    /// The search generation.
    pub closed spec fn spec_generation(self) -> u64 {
        self.generation
    }

    /// The table has `1 << bits` slots, with `bits` at most [`MAX_BITS`].
    pub closed spec fn wf(self) -> bool {
        &&& self.bits <= MAX_BITS
        &&& self.slots@.len() == vstd::arithmetic::power2::pow2(self.bits as nat)
    }

    /// Every key's slot lies in the table.
    pub proof fn lemma_index_range(self, key: u64)
        requires
            self.wf(),
        ensures
            0 <= slot_index(self.spec_bits(), key) < self.spec_slots().len(),
    {
        let b = self.bits;
        vstd::arithmetic::power2::lemma2_to64();
        if b > 0 {
            vstd::arithmetic::power2::lemma_pow2(b as nat);
            vstd::bits::lemma_u64_shr_is_div(key, (64 - b) as u64);
            vstd::arithmetic::power2::lemma_pow2_adds((64 - b) as nat, b as nat);
            vstd::arithmetic::power2::lemma_pow2_pos((64 - b) as nat);
            vstd::arithmetic::power2::lemma_pow2((64 - b) as nat);
            vstd::arithmetic::power2::lemma2_to64();
            vstd::arithmetic::power2::lemma_pow2_strictly_increases(0, b as nat);
            let q = vstd::arithmetic::power2::pow2((64 - b) as nat);
            let n = vstd::arithmetic::power2::pow2(b as nat);
            assert(q * n == 0x10000000000000000int);
            vstd::arithmetic::div_mod::lemma_multiply_divide_lt(key as int, q as int, n as int);
        }
    }

    /// Builds an empty table of the default size (16 MiB).
    pub fn new() -> (t: TranspositionTable)
        ensures
            t.wf(),
            t.spec_bits() == 20,
            t.spec_generation() == 0,
            forall|i: int| 0 <= i < t.spec_slots().len() ==> #[trigger] t.spec_slots()[i] == (0u64, 0u64),
    {
        let t = Self::with_size_mb(DEFAULT_MB);
        proof {
            reveal_with_fuel(index_bits, 22);
        }
        t
    }

    /// Builds an empty table of about `mb` mebibytes: the entry count
    /// (`mb` MiB over 16-byte slots) rounded down to a power of two, at
    /// least one entry and at most `1 << 32`.
    pub fn with_size_mb(mb: usize) -> (t: TranspositionTable)
        ensures
            t.wf(),
            t.spec_bits() == index_bits(
                (if mb * 0x100000 > usize::MAX {
                    usize::MAX as int
                } else {
                    mb * 0x100000
                }) / 16,
            ),
            t.spec_generation() == 0,
            forall|i: int| 0 <= i < t.spec_slots().len() ==> #[trigger] t.spec_slots()[i] == (0u64, 0u64),
    {
        let bytes = match mb.checked_mul(1024 * 1024) {
            Some(b) => b,
            None => usize::MAX,
        };
        let entries = bytes / SLOT_BYTES;
        let mut bits: u32 = 0;
        let mut rest = entries;
        proof {
            vstd::arithmetic::power2::lemma2_to64();
        }
        while rest > 1
            invariant
                rest <= entries,
                index_bits(entries as int) == if bits as int + index_bits(rest as int) > MAX_BITS {
                    MAX_BITS as int
                } else {
                    bits as int + index_bits(rest as int)
                },
                bits < 64,
                rest >= 1 || entries == 0,
                rest as int * vstd::arithmetic::power2::pow2(bits as nat) <= entries,
            decreases rest,
        {
            proof {
                vstd::arithmetic::power2::lemma_pow2_unfold((bits + 1) as nat);
                assert((rest / 2) as int * vstd::arithmetic::power2::pow2((bits + 1) as nat) <= rest
                    * vstd::arithmetic::power2::pow2(bits as nat)) by (nonlinear_arith)
                    requires
                        vstd::arithmetic::power2::pow2((bits + 1) as nat) == 2
                            * vstd::arithmetic::power2::pow2(bits as nat),
                        vstd::arithmetic::power2::pow2(bits as nat) >= 0,
                ;
                vstd::arithmetic::power2::lemma_pow2_pos(bits as nat);
                vstd::arithmetic::power2::lemma_pow2_pos((bits + 1) as nat);
                assert(vstd::arithmetic::power2::pow2((bits + 1) as nat) <= (rest / 2) as int
                    * vstd::arithmetic::power2::pow2((bits + 1) as nat)) by (nonlinear_arith)
                    requires
                        rest / 2 >= 1,
                        vstd::arithmetic::power2::pow2((bits + 1) as nat) > 0,
                ;
                if bits + 1 >= 64 {
                    vstd::arithmetic::power2::lemma2_to64_rest();
                    if bits + 1 > 64 {
                        vstd::arithmetic::power2::lemma_pow2_strictly_increases(64, (bits + 1) as nat);
                    }
                }
            }
            rest = rest / 2;
            bits = bits + 1;
        }
        if bits > MAX_BITS {
            proof {
                vstd::arithmetic::power2::lemma_pow2_strictly_increases(MAX_BITS as nat, bits as nat);
            }
            bits = MAX_BITS;
        }
        proof {
            vstd::arithmetic::power2::lemma_pow2_pos(bits as nat);
            assert(vstd::arithmetic::power2::pow2(bits as nat) <= rest as int
                * vstd::arithmetic::power2::pow2(bits as nat) || entries == 0) by (nonlinear_arith)
                requires
                    rest >= 1 || entries == 0,
                    vstd::arithmetic::power2::pow2(bits as nat) > 0,
            ;
            if bits as u32 >= usize::BITS {
                vstd::arithmetic::power2::lemma_pow2_strictly_increases(usize::BITS as nat, bits as nat);
                if bits as u32 > usize::BITS {
                } 
                assert(vstd::arithmetic::power2::pow2(32) == 0x100000000) by {
                    vstd::arithmetic::power2::lemma2_to64();
                }
                assert(vstd::arithmetic::power2::pow2(64) == 0x10000000000000000) by {
                    vstd::arithmetic::power2::lemma2_to64_rest();
                }
            }
            vstd::bits::lemma_usize_shl_is_mul(1, bits as usize);
        }
        let n: usize = 1usize << bits;
        let mut slots: Vec<(u64, u64)> = Vec::new();
        let mut i: usize = 0;
        while i < n
            invariant
                i <= n,
                slots@.len() == i,
                forall|j: int| 0 <= j < i ==> #[trigger] slots@[j] == (0u64, 0u64),
            decreases n - i,
        {
            slots.push((0, 0));
            i = i + 1;
        }
        TranspositionTable { slots, bits, generation: 0 }
    }

    /// The number of slots.
    pub fn slot_count(&self) -> (n: usize)
        ensures
            n == self.spec_slots().len(),
    {
        self.slots.len()
    }

    /// The table's current size in mebibytes.
    pub fn size_mb(&self) -> (m: usize)
        requires
            self.wf(),
        ensures
            m == self.spec_slots().len() * 16 / 0x100000,
    {
        let n = self.slots.len();
        proof {
            vstd::arithmetic::power2::lemma_pow2_strictly_increases(self.bits as nat, 33);
            vstd::arithmetic::power2::lemma_pow2_pos(self.bits as nat);
            vstd::arithmetic::power2::lemma2_to64();
            if self.bits < 33 {
                vstd::arithmetic::power2::lemma_pow2_strictly_increases(self.bits as nat, 33);
            }
            assert(vstd::arithmetic::power2::pow2(33) == 0x200000000) by {
                vstd::arithmetic::power2::lemma2_to64_rest();
            }
        }
        (n as u64 * 16 / 0x100000) as usize
    }

    /// Marks every entry as belonging to an older search, so the next one
    /// replaces them freely.
    pub fn new_search(&mut self)
        ensures
            final(self).spec_slots() == old(self).spec_slots(),
            final(self).spec_bits() == old(self).spec_bits(),
            final(self).spec_generation() == old(self).spec_generation().wrapping_add(1),
            final(self).wf() == old(self).wf(),
    {
        self.generation = self.generation.wrapping_add(1);
    }

    /// Empties the table.
    pub fn clear(&mut self)
        ensures
            final(self).spec_slots().len() == old(self).spec_slots().len(),
            forall|i: int| 0 <= i < final(self).spec_slots().len() ==> #[trigger] final(self).spec_slots()[i] == (0u64, 0u64),
            final(self).spec_bits() == old(self).spec_bits(),
            final(self).spec_generation() == 0,
    {
        let n = self.slots.len();
        let mut i: usize = 0;
        while i < n
            invariant
                i <= n,
                n == self.slots@.len(),
                self.slots@.len() == old(self).slots@.len(),
                self.bits == old(self).bits,
                forall|j: int| 0 <= j < i ==> #[trigger] self.slots@[j] == (0u64, 0u64),
            decreases n - i,
        {
            self.slots.set(i, (0, 0));
            i = i + 1;
        }
        self.generation = 0;
    }

    /// The slot index of `key`: its top `bits` bits.
    pub fn index(&self, key: u64) -> (i: usize)
        requires
            self.wf(),
        ensures
            i == slot_index(self.spec_bits(), key),
            i < self.spec_slots().len(),
    {
        proof {
            self.lemma_index_range(key);
        }
        if self.bits == 0 {
            return 0;
        }
        let n = self.slots.len();
        let i = key >> ((64 - self.bits) as u64);
        assert(i < n);
        i as usize
    }

    /// Returns the entry stored for `key`, if the slot still holds it.
    pub fn probe(&self, key: u64) -> (e: Option<Entry>)
        requires
            self.wf(),
        ensures
            e is Some <==> probe_result(self.spec_slots(), self.spec_bits(), key).0 is Some,
            e matches Some(en) ==> entry_matches(en, probe_result(self.spec_slots(), self.spec_bits(), key).0->0),
    {
        self.probe_kind(key).0
    }

    /// `probe`, plus why a miss missed: an empty slot, or a slot holding
    /// another position.
    pub fn probe_kind(&self, key: u64) -> (r: (Option<Entry>, Miss))
        requires
            self.wf(),
        ensures
            r.1 == probe_result(self.spec_slots(), self.spec_bits(), key).1,
            r.0 is Some <==> probe_result(self.spec_slots(), self.spec_bits(), key).0 is Some,
            r.0 matches Some(en) ==> entry_matches(en, probe_result(self.spec_slots(), self.spec_bits(), key).0->0),
    {
        let (stored_key, data) = self.slots[self.index(key)];
        if data == 0 {
            return (None, Miss::Empty);
        }
        if stored_key ^ data != key {
            return (None, Miss::Collision);
        }
        let entry = Entry {
            score: (data & 0xffff) as u16 as i16 as i32,
            best_move: Move::from_bits(((data >> 16) & 0xffff) as u16),
            depth: ((data >> 32) & 0xff) as u32,
            bound: Bound::from_bits(data >> 40),
        };
        (Some(entry), Miss::Hit)
    }

    /// Records a search result for `key`, unless the slot holds the same
    /// position at a greater depth, or the packed word would be zero (an
    /// exact score of 0 with no move at depth 0 in a generation whose low
    /// byte is 0).
    pub fn store(&mut self, key: u64, score: i32, best_move: Option<Move>, depth: u32, bound: Bound)
        requires
            old(self).wf(),
        ensures
            final(self).wf(),
            final(self).spec_bits() == old(self).spec_bits(),
            final(self).spec_generation() == old(self).spec_generation(),
            final(self).spec_slots() == store_result(
                old(self).spec_slots(),
                old(self).spec_bits(),
                old(self).spec_generation(),
                key,
                score,
                match best_move {
                    Some(m) => m.value(),
                    None => 0,
                },
                depth,
                bound,
            ),
    {
        let i = self.index(key);
        let generation = self.generation;
        let (k, existing) = self.slots[i];
        let same_position = existing != 0 && k ^ existing == key;
        proof {
            lemma_masks(existing >> 32u64);
        }
        if same_position && (existing >> 32) & 0xff > depth as u64 {
            return;
        }
        let move_bits: u16 = match best_move {
            Some(m) => m.to_bits(),
            None => 0,
        };
        let d: u64 = if depth > 255 {
            255
        } else {
            depth as u64
        };
        let data = (score as i16 as u16 as u64) | ((move_bits as u64) << 16) | (d << 32) | (
        bound.code() << 40) | ((generation & 0xff) << 42);
        if data == 0 {
            return;
        }
        self.slots.set(i, (key ^ data, data));
    }
}

/// An entry has the fields a probe result describes.
pub open spec fn entry_matches(e: Entry, r: (i32, Option<u16>, u32, Bound)) -> bool {
    &&& e.score == r.0
    &&& (match e.best_move {
        Some(m) => r.1 == Some(m.value()),
        None => r.1 is None,
    })
    &&& e.depth == r.2
    &&& e.bound == r.3
}

/// A probe right after a store for the same key finds what was stored (the
/// score truncated to 16 bits, the depth capped at 255), unless the slot
/// kept a deeper entry for the position or the packed word was zero.
pub proof fn lemma_probe_after_store(
    slots: Seq<(u64, u64)>,
    bits: u32,
    generation: u64,
    key: u64,
    score: i32,
    best_move: Option<Move>,
    depth: u32,
    bound: Bound,
)
    requires
        0 <= slot_index(bits, key) < slots.len(),
        best_move matches Some(m) ==> valid_move_bits(m.value()),
    ensures
        ({
            let move_bits = match best_move {
                Some(m) => m.value(),
                None => 0u16,
            };
            let after = store_result(slots, bits, generation, key, score, move_bits, depth, bound);
            let (k, existing) = slots[slot_index(bits, key)];
            let kept = existing != 0 && k ^ existing == key && data_depth(existing) > depth;
            let data = pack(score, move_bits, depth, bound, generation);
            !kept && data != 0 ==> probe_result(after, bits, key) == (
                Some(
                    (
                        score as i16 as i32,
                        match best_move {
                            Some(m) => Some(m.value()),
                            None => None,
                        },
                        if depth > 255 {
                            255u32
                        } else {
                            depth
                        },
                        bound,
                    ),
                ),
                Miss::Hit,
            )
        }),
{
    let move_bits = match best_move {
        Some(m) => m.value(),
        None => 0u16,
    };
    let data = pack(score, move_bits, depth, bound, generation);
    lemma_unpack(score, move_bits, depth, bound, generation);
    lemma_xor_back(key, data);
    assert(!valid_move_bits(0));
}

/// XORing a word in and out gives the key back.
proof fn lemma_xor_back(key: u64, data: u64)
    by (bit_vector)
    ensures
        (key ^ data) ^ data == key,
{
}

} // verus!
