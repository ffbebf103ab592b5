//! The quantised network: its little-endian file format and its output
//! layer.

use vstd::prelude::*;
use crate::tuner::dataset::{fnv1a, FNV_OFFSET, FNV_PRIME};
use crate::board::{Color, Piece, PieceType, Square};
use crate::board::piece::kind_index;

verus! {

broadcast use vstd::std_specs::vec::group_vec_axioms;

/// Neurons in one perspective accumulator.
pub const HIDDEN: usize = 256;

/// Number of HalfKP features: 64 king squares, ten relative non-king piece
/// categories, and 64 piece squares.
pub const FEATURES: usize = 40960;

/// Number of plain piece-square features: twelve pieces on 64 squares.
pub const CHESS768_FEATURES: usize = 768;

/// Bytes before the payload.
pub const HEADER_LEN: usize = 56;

/// The format version this parser reads.
pub const VERSION: u32 = 1;

/// The feature set identifiers of the header.
pub const HALFKP_ABI: u32 = 1;

/// The feature set identifiers of the header.
pub const CHESS768_ABI: u32 = 2;

/// The feature set a network reads.
#[derive(Debug, Clone, Copy, PartialEq, Eq, Structural)]
pub enum FeatureAbi {
    /// King-relative piece-square features.
    HalfKp,
    /// Plain piece-square features.
    Chess768,
}

/// The feature set a header names, with the feature count it must declare.
pub open spec fn abi_of(id: int, features: int) -> Option<FeatureAbi> {
    if id == HALFKP_ABI && features == FEATURES {
        Some(FeatureAbi::HalfKp)
    } else if id == CHESS768_ABI && features == CHESS768_FEATURES {
        Some(FeatureAbi::Chess768)
    } else {
        None
    }
}

impl FeatureAbi {
    /// The feature set with identifier `id` and feature count `features`.
    fn parse(id: u32, features: usize) -> (a: Option<FeatureAbi>)
        ensures
            a == abi_of(id as int, features as int),
    {
        if id == HALFKP_ABI && features == FEATURES {
            Some(FeatureAbi::HalfKp)
        } else if id == CHESS768_ABI && features == CHESS768_FEATURES {
            Some(FeatureAbi::Chess768)
        } else {
            None
        }
    }
}

/// Why an NNUE byte stream could not be loaded.
#[derive(Debug, Clone, Copy, PartialEq, Eq, Structural)]
pub enum NetworkError {
    /// Header is truncated or has the wrong magic.
    Header,
    /// Format, feature ABI, or dimensions are unsupported.
    Layout,
    /// Payload length does not match the header and fixed architecture.
    Length,
    /// Payload integrity hash does not match.
    Hash,
}

/// The little-endian unsigned value of bytes `o..o + n` of `b`.
pub open spec fn le(b: Seq<u8>, o: int, n: nat) -> int
    decreases n,
{
    if n == 0 {
        0
    } else {
        b[o] + 256 * le(b, o + 1, (n - 1) as nat)
    }
}

/// The two's-complement value of a 16-bit unsigned value.
pub open spec fn signed16(u: int) -> int {
    if u >= 0x8000 {
        u - 0x10000
    } else {
        u
    }
}

/// The two's-complement value of a 32-bit unsigned value.
pub open spec fn signed32(u: int) -> int {
    if u >= 0x8000_0000 {
        u - 0x1_0000_0000
    } else {
        u
    }
}

/// The 16-bit little-endian signed value at byte `o` of `b`.
pub open spec fn le_i16(b: Seq<u8>, o: int) -> int {
    signed16(le(b, o, 2))
}

/// The magic bytes `LTNNUE01`.
pub open spec fn magic() -> Seq<u8> {
    seq![76u8, 84, 78, 78, 85, 69, 48, 49]
}

/// The payload length the fixed architecture needs for `features` features.
pub open spec fn expected_payload(features: int) -> int {
    2 * (HIDDEN + features * HIDDEN + 1 + 2 * HIDDEN)
}

/// What parsing `b` gives: the error the first failed check reports, in the
/// order the header is read (a field past the end is a header error), or
/// the feature set when every check passes.
pub open spec fn parse_outcome(b: Seq<u8>) -> Result<FeatureAbi, NetworkError> {
    if b.len() < 8 || !(b.subrange(0, 8) =~= magic()) || b.len() < 20 {
        Err(NetworkError::Header)
    } else if abi_of(le(b, 12, 4), le(b, 16, 4)) is None {
        Err(NetworkError::Layout)
    } else if le(b, 8, 4) != VERSION {
        Err(NetworkError::Layout)
    } else if b.len() < 24 {
        Err(NetworkError::Header)
    } else if le(b, 20, 4) != HIDDEN {
        Err(NetworkError::Layout)
    } else if b.len() < 36 {
        Err(NetworkError::Header)
    } else if signed32(le(b, 24, 4)) <= 0 || signed32(le(b, 28, 4)) <= 0 || signed32(le(b, 32, 4))
        <= 0 {
        Err(NetworkError::Layout)
    } else if b.len() < 40 {
        Err(NetworkError::Header)
    } else if le(b, 36, 4) != 0 {
        Err(NetworkError::Layout)
    } else if b.len() < 48 {
        Err(NetworkError::Header)
    } else if le(b, 40, 8) > usize::MAX || le(b, 40, 8) != expected_payload(le(b, 16, 4)) || b.len()
        != HEADER_LEN + le(b, 40, 8) {
        Err(NetworkError::Length)
    } else if fnv1a(FNV_OFFSET, b.subrange(HEADER_LEN as int, b.len() as int)) != le(b, 48, 8) {
        Err(NetworkError::Hash)
    } else {
        Ok(abi_of(le(b, 12, 4), le(b, 16, 4))->0)
    }
}

/// A parsed, quantised network.
pub struct Network {
    feature_abi: FeatureAbi,
    feature_bias: Vec<i16>,
    feature_weights: Vec<Vec<i16>>,
    output_bias: i16,
    output_weights: Vec<i16>,
    qa: i32,
    qb: i32,
    scale: i32,
}

impl Network {
    /// The feature set.
    pub closed spec fn spec_abi(self) -> FeatureAbi {
        self.feature_abi
    }

    /// The feature biases, one per neuron.
    pub closed spec fn spec_feature_bias(self) -> Seq<i16> {
        self.feature_bias@
    }

    /// The feature weights: one column of a weight per neuron for each
    /// feature.
    pub closed spec fn spec_feature_weights(self) -> Seq<Seq<i16>> {
        self.feature_weights@.map_values(|c: Vec<i16>| c@)
    }

    /// The output bias.
    pub closed spec fn spec_output_bias(self) -> i16 {
        self.output_bias
    }

    /// The output weights: the side to move's neurons, then the other's.
    pub closed spec fn spec_output_weights(self) -> Seq<i16> {
        self.output_weights@
    }

    /// The activation ceiling.
    pub closed spec fn spec_qa(self) -> i32 {
        self.qa
    }

    /// The output weight scale.
    pub closed spec fn spec_qb(self) -> i32 {
        self.qb
    }

    /// The score scale.
    pub closed spec fn spec_scale(self) -> i32 {
        self.scale
    }

    /// The network has the fixed shape and positive scales.
    pub closed spec fn wf(self) -> bool {
        &&& self.feature_bias@.len() == HIDDEN
        &&& self.output_weights@.len() == 2 * HIDDEN
        &&& forall|c: int|
            0 <= c < self.feature_weights@.len() ==> (#[trigger] self.feature_weights@[c])@.len()
                == HIDDEN
        &&& self.qa > 0
        &&& self.qb > 0
        &&& self.scale > 0
    }

    /// Returns the feature set.
    pub fn feature_abi(&self) -> (a: FeatureAbi)
        ensures
            a == self.spec_abi(),
    {
        self.feature_abi
    }

    /// Returns the activation ceiling.
    pub fn qa(&self) -> (q: i32)
        ensures
            q == self.spec_qa(),
    {
        self.qa
    }

    /// Returns the output weight scale.
    pub fn qb(&self) -> (q: i32)
        ensures
            q == self.spec_qb(),
    {
        self.qb
    }

    /// Returns the score scale.
    pub fn scale(&self) -> (s: i32)
        ensures
            s == self.spec_scale(),
    {
        self.scale
    }

    /// Returns the number of feature columns.
    pub fn feature_count(&self) -> (n: usize)
        ensures
            n == self.spec_feature_weights().len(),
    {
        self.feature_weights.len()
    }
}

/// The 4-byte little-endian value at byte `o` of `b`, or `None` when the
/// bytes run past the end.
fn read_le4(b: &[u8], o: usize) -> (r: Option<u64>)
    ensures
        r is Some <==> o + 4 <= b@.len(),
        r matches Some(v) ==> v as int == le(b@, o as int, 4) && v < 0x1_0000_0000,
{
    if o > b.len() || b.len() - o < 4 {
        return None;
    }
    let v = b[o] as u64 + 256 * (b[o + 1] as u64 + 256 * (b[o + 2] as u64 + 256 * (b[o + 3] as u64)));
    proof {
        reveal_with_fuel(le, 5);
    }
    Some(v)
}

/// The 8-byte little-endian value at byte `o` of `b`, or `None` when the
/// bytes run past the end.
pub(crate) fn read_le8(b: &[u8], o: usize) -> (r: Option<u64>)
    ensures
        r is Some <==> o + 8 <= b@.len(),
        r matches Some(v) ==> v as int == le(b@, o as int, 8),
{
    if o > b.len() || b.len() - o < 8 {
        return None;
    }
    let lo = match read_le4(b, o) {
        Some(v) => v,
        None => {
            return None;
        },
    };
    let hi = match read_le4(b, o + 4) {
        Some(v) => v,
        None => {
            return None;
        },
    };
    proof {
        reveal_with_fuel(le, 9);
        assert(le(b@, o as int, 8) == le(b@, o as int, 4) + 0x1_0000_0000 * le(b@, o + 4, 4));
        assert(lo + hi * 0x1_0000_0000 <= 0xffff_ffff_ffff_ffff) by (nonlinear_arith)
            requires
                lo < 0x1_0000_0000,
                hi < 0x1_0000_0000,
        ;
    }
    Some(lo + hi * 0x1_0000_0000)
}

/// The little-endian signed 16-bit value at byte `c` of `b`.
pub(crate) fn read_i16(b: &[u8], c: usize) -> (v: i16)
    requires
        c + 2 <= b@.len(),
    ensures
        v as int == le_i16(b@, c as int),
{
    let u = b[c] as u16 + 256 * (b[c + 1] as u16);
    proof {
        reveal_with_fuel(le, 3);
    }
    if u >= 0x8000 {
        (u as i32 - 0x10000) as i16
    } else {
        u as i16
    }
}

/// The FNV-1a hash of bytes `from..` of `b`.
fn payload_hash(b: &[u8], from: usize) -> (h: u64)
    requires
        from <= b@.len(),
    ensures
        h == fnv1a(FNV_OFFSET, b@.subrange(from as int, b@.len() as int)),
{
    let mut hash = FNV_OFFSET;
    let mut i = from;
    while i < b.len()
        invariant
            from <= i <= b@.len(),
            hash == fnv1a(FNV_OFFSET, b@.subrange(from as int, i as int)),
        decreases b@.len() - i,
    {
        proof {
            assert(b@.subrange(from as int, i + 1).drop_last() =~= b@.subrange(from as int, i as int));
        }
        hash = hash ^ (b[i] as u64);
        hash = hash.wrapping_mul(FNV_PRIME);
        i = i + 1;
    }
    hash
}

/// The weights of a parsed network, read from the payload after the
/// header: feature biases, feature columns, output bias, output weights,
/// each a little-endian `i16`.
pub open spec fn network_matches(n: Network, b: Seq<u8>) -> bool {
    let p = HEADER_LEN as int;
    let features = le(b, 16, 4);
    &&& n.wf()
    &&& n.spec_abi() == parse_outcome(b)->Ok_0
    &&& n.spec_qa() == signed32(le(b, 24, 4))
    &&& n.spec_qb() == signed32(le(b, 28, 4))
    &&& n.spec_scale() == signed32(le(b, 32, 4))
    &&& n.spec_feature_weights().len() == features
    &&& forall|j: int| 0 <= j < HIDDEN ==> n.spec_feature_bias()[j] == le_i16(b, p + 2 * j)
    &&& forall|c: int, j: int|
        0 <= c < features && 0 <= j < HIDDEN ==> #[trigger] n.spec_feature_weights()[c][j]
            == le_i16(b, p + 2 * (HIDDEN + c * HIDDEN + j))
    &&& n.spec_output_bias() == le_i16(b, p + 2 * (HIDDEN + features * HIDDEN))
    &&& forall|j: int|
        0 <= j < 2 * HIDDEN ==> n.spec_output_weights()[j] == le_i16(
            b,
            p + 2 * (HIDDEN + features * HIDDEN + 1 + j),
        )
}

/// Reads `count` little-endian `i16` values from byte `at` of `b`.
fn read_block(b: &[u8], at: usize, count: usize) -> (v: Vec<i16>)
    requires
        at + 2 * count <= b@.len(),
    ensures
        v@.len() == count,
        forall|j: int| 0 <= j < count ==> v@[j] == le_i16(b@, at + 2 * j),
{
    let mut v: Vec<i16> = Vec::new();
    let mut j: usize = 0;
    let len = b.len();
    while j < count
        invariant
            j <= count,
            len == b@.len(),
            at + 2 * count <= b@.len(),
            v@.len() == j,
            forall|q: int| 0 <= q < j ==> v@[q] == le_i16(b@, at + 2 * q),
        decreases count - j,
    {
        v.push(read_i16(b, at + 2 * j));
        j = j + 1;
    }
    v
}

impl Network {
    /// Parses the strict little-endian network format: exactly when
    /// [`parse_outcome`] accepts the bytes the result is the network they
    /// hold, and otherwise the error it names.
    pub fn parse(bytes: &[u8]) -> (r: Result<Network, NetworkError>)
        ensures
            r is Ok <==> parse_outcome(bytes@) is Ok,
            r matches Err(e) ==> parse_outcome(bytes@) == Err::<FeatureAbi, NetworkError>(e),
            r matches Ok(n) ==> network_matches(n, bytes@),
    {
        let ghost b = bytes@;
        if bytes.len() < 8 {
            return Err(NetworkError::Header);
        }
        let mut i: usize = 0;
        let expected: [u8; 8] = [76, 84, 78, 78, 85, 69, 48, 49];
        while i < 8
            invariant
                i <= 8,
                b.len() >= 8,
                b == bytes@,
                expected@ == magic(),
                forall|j: int| 0 <= j < i ==> b[j] == magic()[j],
            decreases 8 - i,
        {
            if bytes[i] != expected[i] {
                assert(b.subrange(0, 8)[i as int] != magic()[i as int]);
                return Err(NetworkError::Header);
            }
            i = i + 1;
        }
        assert(b.subrange(0, 8) =~= magic());
        let features = match read_le4(bytes, 16) {
            Some(v) => v as usize,
            None => {
                return Err(NetworkError::Header);
            },
        };
        let id = match read_le4(bytes, 12) {
            Some(v) => v as u32,
            None => {
                return Err(NetworkError::Header);
            },
        };
        let feature_abi = match FeatureAbi::parse(id, features) {
            Some(a) => a,
            None => {
                return Err(NetworkError::Layout);
            },
        };
        let version = match read_le4(bytes, 8) {
            Some(v) => v,
            None => {
                return Err(NetworkError::Header);
            },
        };
        if version != VERSION as u64 {
            return Err(NetworkError::Layout);
        }
        let hidden = match read_le4(bytes, 20) {
            Some(v) => v,
            None => {
                return Err(NetworkError::Header);
            },
        };
        if hidden != HIDDEN as u64 {
            return Err(NetworkError::Layout);
        }
        let (qa, qb, scale) = match (read_le4(bytes, 24), read_le4(bytes, 28), read_le4(bytes, 32)) {
            (Some(a), Some(q), Some(s)) => (as_i32(a), as_i32(q), as_i32(s)),
            _ => {
                return Err(NetworkError::Header);
            },
        };
        if qa <= 0 || qb <= 0 || scale <= 0 {
            return Err(NetworkError::Layout);
        }
        let reserved = match read_le4(bytes, 36) {
            Some(v) => v,
            None => {
                return Err(NetworkError::Header);
            },
        };
        if reserved != 0 {
            return Err(NetworkError::Layout);
        }
        let payload_len = match read_le8(bytes, 40) {
            Some(v) => v,
            None => {
                return Err(NetworkError::Header);
            },
        };
        let expected_len: u64 = (2 * (HIDDEN + features * HIDDEN + 1 + 2 * HIDDEN)) as u64;
        if payload_len > usize::MAX as u64 || payload_len != expected_len || bytes.len() as u64
            != HEADER_LEN as u64 + payload_len {
            return Err(NetworkError::Length);
        }
        let stored_hash = match read_le8(bytes, 48) {
            Some(v) => v,
            None => {
                return Err(NetworkError::Header);
            },
        };
        if payload_hash(bytes, HEADER_LEN) != stored_hash {
            return Err(NetworkError::Hash);
        }
        let feature_bias = read_block(bytes, HEADER_LEN, HIDDEN);
        let mut feature_weights: Vec<Vec<i16>> = Vec::new();
        let mut c: usize = 0;
        while c < features
            invariant
                c <= features,
                features == le(b, 16, 4),
                features == FEATURES || features == CHESS768_FEATURES,
                b == bytes@,
                b.len() == HEADER_LEN + 2 * (HIDDEN + features * HIDDEN + 1 + 2 * HIDDEN),
                feature_weights@.len() == c,
                forall|q: int|
                    0 <= q < c ==> (#[trigger] feature_weights@[q])@.len() == HIDDEN,
                forall|q: int, j: int|
                    0 <= q < c && 0 <= j < HIDDEN ==> #[trigger] feature_weights@[q]@[j]
                        == le_i16(b, HEADER_LEN + 2 * (HIDDEN + q * HIDDEN + j)),
            decreases features - c,
        {
            proof {
                assert(HEADER_LEN + 2 * (HIDDEN + c * HIDDEN) + 2 * HIDDEN <= b.len()) by (nonlinear_arith)
                    requires
                        c < features,
                        b.len() == HEADER_LEN + 2 * (HIDDEN + features * HIDDEN + 1 + 2 * HIDDEN),
                ;
            }
            let column = read_block(bytes, HEADER_LEN + 2 * (HIDDEN + c * HIDDEN), HIDDEN);
            proof {
                assert forall|j: int| 0 <= j < HIDDEN implies column@[j] == le_i16(b, HEADER_LEN + 2 * (HIDDEN + c * HIDDEN + j)) by {
                    assert(HEADER_LEN + 2 * (HIDDEN + c * HIDDEN) + 2 * j == HEADER_LEN + 2 * (HIDDEN + c * HIDDEN + j));
                }
            }
            feature_weights.push(column);
            c = c + 1;
        }
        let at = HEADER_LEN + 2 * (HIDDEN + features * HIDDEN);
        let output_bias = read_i16(bytes, at);
        let output_weights = read_block(bytes, at + 2, 2 * HIDDEN);
        let n = Network {
            feature_abi,
            feature_bias,
            feature_weights,
            output_bias,
            output_weights,
            qa,
            qb,
            scale,
        };
        proof {
            assert forall|j: int| 0 <= j < 2 * HIDDEN implies n.spec_output_weights()[j] == le_i16(b, HEADER_LEN + 2 * (HIDDEN + features * HIDDEN + 1 + j)) by {
                assert(at + 2 + 2 * j == HEADER_LEN + 2 * (HIDDEN + features * HIDDEN + 1 + j));
            }
            assert forall|q: int, j: int| 0 <= q < features && 0 <= j < HIDDEN implies #[trigger] n.spec_feature_weights()[q][j] == le_i16(b, HEADER_LEN + 2 * (HIDDEN + q * HIDDEN + j)) by {
                assert(n.spec_feature_weights()[q] == n.feature_weights@[q]@);
            }
        }
        Ok(n)
    }
}

/// A 32-bit value read as a two's-complement `i32`.
fn as_i32(u: u64) -> (v: i32)
    requires
        u < 0x1_0000_0000,
    ensures
        v as int == signed32(u as int),
{
    if u >= 0x8000_0000 {
        (u as i64 - 0x1_0000_0000) as i32
    } else {
        u as i32
    }
}

/// The squared clipped activation of `v`: `v` clamped to `0..=qa`, squared.
pub open spec fn screlu(v: int, qa: int) -> int {
    let c = if v < 0 {
        0
    } else if v > qa {
        qa
    } else {
        v
    };
    c * c
}

/// The sum over the first `n` neurons of each activation times its weight,
/// the weights taken from `from` on.
pub open spec fn screlu_dot(values: Seq<i16>, weights: Seq<i16>, from: int, n: int, qa: int) -> int
    decreases n,
{
    if n <= 0 {
        0
    } else {
        screlu_dot(values, weights, from, n - 1, qa) + screlu(values[n - 1] as int, qa) * weights[from
            + n - 1]
    }
}

/// Integer division rounding toward zero, for a positive divisor.
pub open spec fn div_toward_zero(a: int, b: int) -> int {
    if a >= 0 {
        a / b
    } else {
        -((-a) / b)
    }
}

/// The network's score for the accumulators `us` (side to move) and `them`:
/// the two dot products summed, divided by `qa`, plus the output bias, times
/// the scale (the product wrapping around in 64 bits), divided by
/// `qa * qb`, and clamped to `i32`.
pub open spec fn output_of(n: Network, us: Seq<i16>, them: Seq<i16>) -> int {
    let qa = n.spec_qa() as int;
    let w = n.spec_output_weights();
    let sum = screlu_dot(us, w, 0, HIDDEN as int, qa) + screlu_dot(them, w, HIDDEN as int, HIDDEN as int, qa);
    let d = div_toward_zero(sum, qa) + n.spec_output_bias();
    let o = vstd::wrapping::i64_specs::wrapping_mul(d as i64, n.spec_scale() as i64);
    let r = div_toward_zero(o as int, qa * n.spec_qb());
    if r < i32::MIN {
        i32::MIN as int
    } else if r > i32::MAX {
        i32::MAX as int
    } else {
        r
    }
}

/// Weights that agree where a dot product reads them give it the same value.
proof fn lemma_dot_same_weights(values: Seq<i16>, w1: Seq<i16>, w2: Seq<i16>, from: int, n: int, qa: int)
    requires
        forall|j: int| 0 <= j < n ==> #[trigger] w1[from + j] == w2[from + j],
    ensures
        screlu_dot(values, w1, from, n, qa) == screlu_dot(values, w2, from, n, qa),
    decreases n,
{
    if n > 0 {
        lemma_dot_same_weights(values, w1, w2, from, n - 1, qa);
        assert(w1[from + (n - 1)] == w2[from + (n - 1)]);
    }
}

/// Activations that are never positive contribute nothing.
proof fn lemma_dot_silent(values: Seq<i16>, w: Seq<i16>, from: int, n: int, qa: int)
    requires
        0 <= qa,
        forall|j: int| 0 <= j < n ==> values[j] <= 0,
    ensures
        screlu_dot(values, w, from, n, qa) == 0,
    decreases n,
{
    if n > 0 {
        lemma_dot_silent(values, w, from, n - 1, qa);
        let v = values[n - 1] as int;
        assert(v <= 0);
        let c = if v < 0 {
            0
        } else if v > qa {
            qa
        } else {
            v
        };
        assert(c == 0);
        assert(c * c == 0) by (nonlinear_arith)
            requires
                c == 0,
        ;
        assert(screlu(v, qa) == c * c);
        let x = w[from + n - 1] as int;
        assert(screlu(v, qa) * x == 0) by (nonlinear_arith)
            requires
                screlu(v, qa) == 0,
        ;
    }
}

/// The side to move's accumulator meets the first half of the output
/// weights and the opponent's the second: with the opponent's activations
/// all off, the score does not depend on the second half at all, and with
/// the side to move's all off it does not depend on the first half.
pub proof fn output_reads_each_side_with_its_half(n1: Network, n2: Network, us: Seq<i16>, them: Seq<i16>)
    requires
        n1.spec_qa() > 0,
        n1.spec_qa() == n2.spec_qa(),
        n1.spec_qb() == n2.spec_qb(),
        n1.spec_scale() == n2.spec_scale(),
        n1.spec_output_bias() == n2.spec_output_bias(),
    ensures
        (forall|i: int| 0 <= i < HIDDEN ==> #[trigger] them[i] <= 0) && (forall|i: int|
            0 <= i < HIDDEN ==> #[trigger] n1.spec_output_weights()[i] == n2.spec_output_weights()[i])
            ==> output_of(n1, us, them) == output_of(n2, us, them),
        (forall|i: int| 0 <= i < HIDDEN ==> #[trigger] us[i] <= 0) && (forall|i: int|
            0 <= i < HIDDEN ==> #[trigger] n1.spec_output_weights()[HIDDEN + i]
                == n2.spec_output_weights()[HIDDEN + i]) ==> output_of(n1, us, them) == output_of(n2, us, them),
{
    let qa = n1.spec_qa() as int;
    let w1 = n1.spec_output_weights();
    let w2 = n2.spec_output_weights();
    let h = HIDDEN as int;
    if (forall|i: int| 0 <= i < HIDDEN ==> #[trigger] them[i] <= 0) && (forall|i: int|
        0 <= i < HIDDEN ==> #[trigger] w1[i] == w2[i]) {
        assert forall|j: int| 0 <= j < h implies #[trigger] w1[0 + j] == w2[0 + j] by {
            assert(w1[j] == w2[j]);
        }
        lemma_dot_same_weights(us, w1, w2, 0, h, qa);
        lemma_dot_silent(them, w1, h, h, qa);
        lemma_dot_silent(them, w2, h, h, qa);
    }
    if (forall|i: int| 0 <= i < HIDDEN ==> #[trigger] us[i] <= 0) && (forall|i: int|
        0 <= i < HIDDEN ==> #[trigger] w1[HIDDEN + i] == w2[HIDDEN + i]) {
        assert forall|j: int| 0 <= j < h implies #[trigger] w1[h + j] == w2[h + j] by {
            assert(w1[HIDDEN + j] == w2[HIDDEN + j]);
        }
        lemma_dot_same_weights(them, w1, w2, h, h, qa);
        lemma_dot_silent(us, w1, 0, h, qa);
        lemma_dot_silent(us, w2, 0, h, qa);
    }
}

/// Each term of a dot product is at most `2^45` in size: the activation is
/// clipped to at most the `i16` it came from.
proof fn lemma_term_bound(v: int, w: int, qa: int)
    requires
        0 < qa,
        v < 0x8000,
        -0x8000 <= w < 0x8000,
    ensures
        -0x2000_0000_0000 <= screlu(v, qa) * w <= 0x2000_0000_0000,
{
    let c = if v < 0 {
        0
    } else if v > qa {
        qa
    } else {
        v
    };
    assert(0 <= c * c <= 0x4000_0000) by (nonlinear_arith)
        requires
            0 <= c < 0x8000,
    ;
    assert(-0x2000_0000_0000 <= (c * c) * w <= 0x2000_0000_0000) by (nonlinear_arith)
        requires
            0 <= c * c <= 0x4000_0000,
            -0x8000 <= w < 0x8000,
    ;
}

impl Network {
    /// The dot product of `values` with the output weights from `from` on.
    fn dot(&self, values: &[i16; 256], from: usize) -> (d: i64)
        requires
            self.wf(),
            from == 0 || from == HIDDEN,
        ensures
            d == screlu_dot(values@, self.spec_output_weights(), from as int, HIDDEN as int, self.spec_qa() as int),
            -0x20_0000_0000_0000 <= d <= 0x20_0000_0000_0000,
    {
        let qa = self.qa as i64;
        let mut sum: i64 = 0;
        let mut i: usize = 0;
        while i < HIDDEN
            invariant
                i <= HIDDEN,
                self.wf(),
                from == 0 || from == HIDDEN,
                qa == self.spec_qa(),
                0 < qa,
                sum == screlu_dot(values@, self.spec_output_weights(), from as int, i as int, qa as int),
                -0x2000_0000_0000 * i <= sum <= 0x2000_0000_0000 * i,
            decreases HIDDEN - i,
        {
            let v = values[i] as i64;
            let c = if v < 0 {
                0
            } else if v > qa {
                qa
            } else {
                v
            };
            let w = self.output_weights[from + i] as i64;
            proof {
                lemma_term_bound(v as int, w as int, qa as int);
                assert(0 <= c * c <= 0x4000_0000) by (nonlinear_arith)
                    requires
                        0 <= c < 0x8000,
                ;
            }
            sum = sum + c * c * w;
            i = i + 1;
        }
        sum
    }

    /// The network's score for the two perspectives' accumulators (see
    /// [`output_of`]).
    pub fn evaluate(&self, us: &[i16; 256], them: &[i16; 256]) -> (r: i32)
        requires
            self.wf(),
        ensures
            r == output_of(*self, us@, them@),
    {
        let a = self.dot(us, 0);
        let b = self.dot(them, HIDDEN);
        let qa = self.qa as i64;
        let mut output = a + b;
        output = output / qa;
        proof {
            assert(-0x40_0000_0000_0000 <= output <= 0x40_0000_0000_0000);
        }
        output = output + self.output_bias as i64;
        output = output.wrapping_mul(self.scale as i64);
        proof {
            assert(0 < qa * (self.qb as i64) <= 0x7fff_ffff * 0x7fff_ffff) by (nonlinear_arith)
                requires
                    0 < qa <= 0x7fff_ffff,
                    0 < self.qb <= 0x7fff_ffff,
            ;
        }
        output = output / (qa * self.qb as i64);
        if output < i32::MIN as i64 {
            i32::MIN
        } else if output > i32::MAX as i64 {
            i32::MAX
        } else {
            output as i32
        }
    }
}


/// A square seen from `perspective`: Black's view mirrors the ranks.
pub open spec fn oriented(perspective: Color, s: int) -> int {
    if perspective == Color::White {
        s
    } else {
        8 * (7 - s / 8) + s % 8
    }
}

/// The HalfKP feature of `piece` on `square` from the view of `perspective`'s
/// king on `king`: the oriented square, then ten piece buckets (the five
/// non-king kinds, own side first), then the oriented king square. Kings are
/// anchors rather than features and have none.
pub open spec fn feature_of(perspective: Color, king: int, piece: Piece, square: int) -> Option<int> {
    if piece.spec_kind() == PieceType::King {
        None
    } else {
        let bucket = kind_index(piece.spec_kind()) + 5 * (if piece.spec_color() != perspective {
            1int
        } else {
            0int
        });
        Some(oriented(perspective, square) + 64 * (bucket + 10 * oriented(perspective, king)))
    }
}

/// Returns the HalfKP feature for a piece from one king's perspective (see
/// [`feature_of`]); every feature is below [`FEATURES`].
pub fn feature_index(perspective: Color, king: Square, piece: Piece, square: Square) -> (f: Option<usize>)
    ensures
        f is Some <==> feature_of(perspective, king.idx(), piece, square.idx()) is Some,
        f matches Some(i) ==> i == feature_of(perspective, king.idx(), piece, square.idx())->0
            && i < FEATURES,
{
    if piece.piece_type() == PieceType::King {
        return None;
    }
    let (sq, k) = match perspective {
        Color::White => (square.index() as usize, king.index() as usize),
        Color::Black => (square.flip_rank().index() as usize, king.flip_rank().index() as usize),
    };
    let relative: usize = if piece.color() != perspective {
        1
    } else {
        0
    };
    let bucket = piece.piece_type().index() as usize + 5 * relative;
    proof {
        assert(bucket < 10);
        assert(sq < 64 && k < 64);
        assert(sq + 64 * (bucket + 10 * k) < 40960) by (nonlinear_arith)
            requires
                sq < 64,
                k < 64,
                bucket < 10,
        ;
    }
    Some(sq + 64 * (bucket + 10 * k))
}

} // verus!
