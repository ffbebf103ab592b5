//! Label counts of aggregated placements, and the seeded hash that assigns a
//! placement to the training or validation split.

use vstd::prelude::*;

verus! {

/// The FNV-1a offset basis.
pub const FNV_OFFSET: u64 = 0xcbf2_9ce4_8422_2325;

/// The FNV-1a prime.
pub const FNV_PRIME: u64 = 0x0000_0100_0000_01b3;

/// FNV-1a over `bytes` from `hash`: each byte XORed in, then the state
/// multiplied by the prime (wrapping).
pub open spec fn fnv1a(hash: u64, bytes: Seq<u8>) -> u64
    decreases bytes.len(),
{
    if bytes.len() == 0 {
        hash
    } else {
        vstd::wrapping::u64_specs::wrapping_mul(
            fnv1a(hash, bytes.drop_last()) ^ (bytes.last() as u64),
            FNV_PRIME,
        )
    }
}

/// A placement's split hash: FNV-1a over its bytes from the offset basis
/// XORed with `seed`. It depends on the placement and the seed alone.
pub fn stable_hash(placement: &[u8; 24], seed: u64) -> (h: u64)
    ensures
        h == fnv1a(FNV_OFFSET ^ seed, placement@),
{
    let mut hash = FNV_OFFSET ^ seed;
    let mut i: usize = 0;
    while i < 24
        invariant
            i <= 24,
            placement@.len() == 24,
            hash == fnv1a(FNV_OFFSET ^ seed, placement@.take(i as int)),
        decreases 24 - i,
    {
        proof {
            assert(placement@.take(i + 1).drop_last() =~= placement@.take(i as int));
        }
        hash = hash ^ (placement[i] as u64);
        hash = hash.wrapping_mul(FNV_PRIME);
        i = i + 1;
    }
    assert(placement@.take(24) =~= placement@);
    hash
}

/// How often each game result was seen for one placement.
#[derive(Debug, Clone, Copy, Default, PartialEq, Eq)]
pub struct LabelCounts {
    /// Games lost by the side to move.
    pub losses: u32,
    /// Games drawn.
    pub draws: u32,
    /// Games won by the side to move.
    pub wins: u32,
}

impl LabelCounts {
    /// The number of games counted.
    pub fn weight(self) -> (w: u64)
        ensures
            w == self.losses + self.draws + self.wins,
    {
        self.losses as u64 + self.draws as u64 + self.wins as u64
    }

    /// Counts one more game with result code `result` (0 loss, 1 draw,
    /// 2 win).
    pub fn add(&mut self, result: u8)
        requires
            result < 3,
            result == 0 ==> old(self).losses < u32::MAX,
            result == 1 ==> old(self).draws < u32::MAX,
            result == 2 ==> old(self).wins < u32::MAX,
        ensures
            final(self).losses == old(self).losses + if result == 0 {
                1int
            } else {
                0
            },
            final(self).draws == old(self).draws + if result == 1 {
                1int
            } else {
                0
            },
            final(self).wins == old(self).wins + if result == 2 {
                1int
            } else {
                0
            },
    {
        if result == 0 {
            self.losses = self.losses + 1;
        } else if result == 1 {
            self.draws = self.draws + 1;
        } else {
            self.wins = self.wins + 1;
        }
    }

    /// Whether the placement was seen with more than one result.
    pub fn conflicts(self) -> (b: bool)
        ensures
            b == ((if self.losses != 0 {
                1int
            } else {
                0
            }) + (if self.draws != 0 {
                1int
            } else {
                0
            }) + (if self.wins != 0 {
                1int
            } else {
                0
            }) > 1),
    {
        let n: usize = (if self.losses != 0 {
            1
        } else {
            0
        }) + (if self.draws != 0 {
            1
        } else {
            0
        }) + (if self.wins != 0 {
            1
        } else {
            0
        });
        n > 1
    }
}

} // verus!
