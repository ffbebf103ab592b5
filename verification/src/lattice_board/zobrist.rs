//! Zobrist hashing: a 64-bit fingerprint of a position. Each `(piece, square)`,
//! castling-rights combination, en-passant file and the side to move gets a
//! fixed key drawn from a SplitMix64 generator with a fixed seed, so the table
//! is identical on every build.
use vstd::prelude::*;
use vstd::wrapping::u64_specs::{wrapping_add, wrapping_mul};

verus! {

/// A 64-bit Zobrist hash of a board position.
#[derive(Clone, Copy, PartialEq, Eq, Structural, Hash, PartialOrd, Ord, Debug)]
pub struct ZobristHash(u64);

impl ZobristHash {
    /// The raw value as a spec value.
    pub closed spec fn value(self) -> u64 {
        self.0
    }

    /// The raw 64-bit value, e.g. to index a transposition table.
    pub fn get(self) -> (v: u64)
        ensures
            v == self.value(),
    {
        self.0
    }

    /// Wrap a raw 64-bit value.
    pub fn from_raw(v: u64) -> (h: ZobristHash)
        ensures
            h.value() == v,
    {
        ZobristHash(v)
    }
}

/// Fixed seed for the key generator.
pub const SEED: u64 = 0x1A2B_3C4D_5E6F_7081;

/// The SplitMix64 increment.
pub const GAMMA: u64 = 0x9E37_79B9_7F4A_7C15;

/// The SplitMix64 output function.
pub open spec fn splitmix_mix(s: u64) -> u64 {
    let z1 = wrapping_mul(s ^ (s >> 30), 0xBF58_476D_1CE4_E5B9);
    let z2 = wrapping_mul(z1 ^ (z1 >> 27), 0x94D0_49BB_1331_11EB);
    z2 ^ (z2 >> 31)
}

/// The generator state after `n` steps from [`SEED`].
pub open spec fn splitmix_state(n: nat) -> u64
    decreases n,
{
    if n == 0 {
        SEED
    } else {
        wrapping_add(splitmix_state((n - 1) as nat), GAMMA)
    }
}

/// The `n`-th key drawn (counting from 0).
pub open spec fn draw(n: nat) -> u64 {
    splitmix_mix(splitmix_state(n + 1))
}

/// One step of SplitMix64: advances `state` and returns the next key.
pub fn next(state: &mut u64) -> (k: u64)
    ensures
        *final(state) == wrapping_add(*old(state), GAMMA),
        k == splitmix_mix(*final(state)),
{
    *state = state.wrapping_add(GAMMA);
    let s = *state;
    let z1 = (s ^ (s >> 30)).wrapping_mul(0xBF58_476D_1CE4_E5B9);
    let z2 = (z1 ^ (z1 >> 27)).wrapping_mul(0x94D0_49BB_1331_11EB);
    z2 ^ (z2 >> 31)
}

/// The full key table.
pub struct Zobrist {
    /// `[piece byte 0..12][square 0..64]`.
    piece_keys: Vec<Vec<u64>>,
    /// Indexed by the castling-rights bitset (0..16).
    castling_keys: Vec<u64>,
    /// Indexed by the en-passant target file (0..8).
    ep_keys: Vec<u64>,
    /// XORed in when it is Black's turn.
    side_key: u64,
}

impl Zobrist {
    /// The table holds the keys drawn in order: 768 piece keys (piece-major),
    /// then 16 castling keys, 8 en passant keys and the side key.
    pub closed spec fn wf(self) -> bool {
        &&& self.piece_keys@.len() == 12
        &&& forall|p: int| 0 <= p < 12 ==> (#[trigger] self.piece_keys@[p])@.len() == 64
        &&& forall|p: int, s: int|
            0 <= p < 12 && 0 <= s < 64 ==> (#[trigger] self.piece_keys@[p]@[s]) == draw(
                (64 * p + s) as nat,
            )
        &&& self.castling_keys@.len() == 16
        &&& forall|c: int| 0 <= c < 16 ==> #[trigger] self.castling_keys@[c] == draw((768 + c) as nat)
        &&& self.ep_keys@.len() == 8
        &&& forall|f: int| 0 <= f < 8 ==> #[trigger] self.ep_keys@[f] == draw((784 + f) as nat)
        &&& self.side_key == draw(792)
    }

    /// Fill the whole key table from [`SEED`] in the fixed draw order.
    pub fn build() -> (z: Zobrist)
        ensures
            z.wf(),
    {
        let mut state = SEED;
        let mut n: u64 = 0;
        let mut piece_keys: Vec<Vec<u64>> = Vec::new();
        let mut p: usize = 0;
        while p < 12
            invariant
                p <= 12,
                n == 64 * p,
                state == splitmix_state(n as nat),
                piece_keys@.len() == p,
                forall|q: int| 0 <= q < p ==> (#[trigger] piece_keys@[q])@.len() == 64,
                forall|q: int, s: int|
                    0 <= q < p && 0 <= s < 64 ==> (#[trigger] piece_keys@[q]@[s]) == draw(
                        (64 * q + s) as nat,
                    ),
            decreases 12 - p,
        {
            let mut row: Vec<u64> = Vec::new();
            let mut s: usize = 0;
            while s < 64
                invariant
                    s <= 64,
                    p < 12,
                    n == 64 * p + s,
                    state == splitmix_state(n as nat),
                    row@.len() == s,
                    forall|t: int| 0 <= t < s ==> #[trigger] row@[t] == draw((64 * p + t) as nat),
                decreases 64 - s,
            {
                let k = next(&mut state);
                n = n + 1;
                row.push(k);
                s = s + 1;
            }
            piece_keys.push(row);
            p = p + 1;
        }
        let mut castling_keys: Vec<u64> = Vec::new();
        let mut c: usize = 0;
        while c < 16
            invariant
                c <= 16,
                n == 768 + c,
                state == splitmix_state(n as nat),
                castling_keys@.len() == c,
                forall|t: int| 0 <= t < c ==> #[trigger] castling_keys@[t] == draw((768 + t) as nat),
            decreases 16 - c,
        {
            let k = next(&mut state);
            n = n + 1;
            castling_keys.push(k);
            c = c + 1;
        }
        let mut ep_keys: Vec<u64> = Vec::new();
        let mut f: usize = 0;
        while f < 8
            invariant
                f <= 8,
                n == 784 + f,
                state == splitmix_state(n as nat),
                ep_keys@.len() == f,
                forall|t: int| 0 <= t < f ==> #[trigger] ep_keys@[t] == draw((784 + t) as nat),
            decreases 8 - f,
        {
            let k = next(&mut state);
            n = n + 1;
            ep_keys.push(k);
            f = f + 1;
        }
        let side_key = next(&mut state);
        Zobrist { piece_keys, castling_keys, ep_keys, side_key }
    }

    /// Key for the piece with byte `piece_idx` on square `sq_idx`.
    pub fn piece(&self, piece_idx: u8, sq_idx: u8) -> (k: u64)
        requires
            self.wf(),
            piece_idx < 12,
            sq_idx < 64,
        ensures
            k == draw((64 * piece_idx + sq_idx) as nat),
    {
        self.piece_keys[piece_idx as usize][sq_idx as usize]
    }

    /// Key for the castling-rights bitset `bits` (0..16).
    pub fn castling(&self, bits: u8) -> (k: u64)
        requires
            self.wf(),
            bits < 16,
        ensures
            k == draw((768 + bits) as nat),
    {
        self.castling_keys[bits as usize]
    }

    /// Key for an en-passant target on file `file` (0..8).
    pub fn en_passant(&self, file: u8) -> (k: u64)
        requires
            self.wf(),
            file < 8,
        ensures
            k == draw((784 + file) as nat),
    {
        self.ep_keys[file as usize]
    }

    /// Key XORed in when Black is to move.
    pub fn side(&self) -> (k: u64)
        requires
            self.wf(),
        ensures
            k == draw(792),
    {
        self.side_key
    }
}

} // verus!
