//! Facts about the bits of a 64-bit word, shared by both bitboard types.
use vstd::prelude::*;
use vstd::std_specs::bits::{u64_trailing_zeros, axiom_u64_trailing_zeros};

verus! {

/// Whether bit `i` (`0..64`) of `x` is set.
pub open spec fn bit(x: u64, i: int) -> bool {
    0 <= i < 64 && (x >> (i as u64)) & 1 == 1
}

/// The set of bit positions set in `x`.
pub open spec fn bit_set(x: u64) -> Set<int> {
    Set::new(|i: int| bit(x, i))
}

/// Bit-level facts about bytes used by the packed encodings.
pub proof fn lemma_u8_bits(v: u8)
    by (bit_vector)
    ensures
        v & 1 == v % 2,
        v >> 1 == v / 2,
        v & 3 == v % 4,
        v & 7 == v % 8,
        v >> 3 == v / 8,
        (v & 4 != 0) == (v % 8 >= 4),
        (v & 8 != 0) == (v % 16 >= 8),
        !v & 15 <= 15,
        v & 15 == v % 16,
        v >> 4 == v / 16,
        (v >> 4) & 15 == v / 16,
        (v >> 0) & 15 == v % 16,
{
}

/// Bit-level facts about pairs of bytes used by the packed encodings.
pub proof fn lemma_u8_pair(a: u8, b: u8)
    by (bit_vector)
    ensures
        a <= 15 ==> a & b <= 15,
        a <= 15 && b <= 15 ==> a | b <= 15,
        a < 2 && b < 8 ==> a | (b << 1) == 2 * b + a,
        a < 2 && b < 8 ==> (b << 1) | a == 2 * b + a,
        a < 64 ==> a & 63 == a,
        a < 2 && b < 8 ==> ((a & 1) << 3) | (b & 7) == 8 * a + b,
{
}

/// Mirroring a square index across the board's middle rank.
pub proof fn lemma_u8_flip(i: u8)
    by (bit_vector)
    ensures
        i < 64 ==> i ^ 56 < 64,
        i < 64 ==> i ^ 56 == 8 * (7 - i / 8) + i % 8,
        i < 16 ==> (i ^ 8) & 15 == (if i < 8 { i + 8 } else { i - 8 }),
{
}

/// Bit-level facts about the 16-bit move encoding.
pub proof fn lemma_u16_bits(v: u16, s: u16, d: u16, f: u16)
    by (bit_vector)
    ensures
        v & 63 == v % 64,
        (v >> 6) & 63 == (v / 64) % 64,
        v >> 12 == v / 4096,
        s < 64 && d < 64 && f < 16 ==> s | (d << 6) | (f << 12) == s + 64 * d + 4096 * f,
{
}

/// Bit-level facts about one position `j` of 64-bit words.
pub proof fn lemma_u64_bit_at(x: u64, y: u64, k: u64, j: u64)
    by (bit_vector)
    ensures
        ((x | y) >> j) & 1 == 1 <==> ((x >> j) & 1 == 1 || (y >> j) & 1 == 1),
        ((x & y) >> j) & 1 == 1 <==> ((x >> j) & 1 == 1 && (y >> j) & 1 == 1),
        ((x ^ y) >> j) & 1 == 1 <==> ((x >> j) & 1 == 1) != ((y >> j) & 1 == 1),
        j < 64 ==> ((!x >> j) & 1 == 1 <==> !((x >> j) & 1 == 1)),
        (0u64 >> j) & 1 == 0,
        k < 64 && j < 64 ==> ((((1u64 << k) >> j) & 1 == 1) <==> j == k),
        k < 64 && j < 64 ==> ((((x | (1u64 << k)) >> j) & 1 == 1) <==> (j == k || (x >> j) & 1
            == 1)),
        k < 64 && j < 64 ==> ((((x & !(1u64 << k)) >> j) & 1 == 1) <==> (j != k && (x >> j) & 1
            == 1)),
        k < 64 ==> ((x & (1u64 << k) != 0) <==> (x >> k) & 1 == 1),
        x != y ==> x ^ y != 0,
        x & y <= y,
{
}

/// Exclusive or is associative and commutative, with 0 as identity and
/// every word its own inverse.
pub proof fn lemma_xor(a: u64, b: u64, c: u64)
    by (bit_vector)
    ensures
        (a ^ b) ^ c == a ^ (b ^ c),
        a ^ b == b ^ a,
        a ^ 0 == a,
        a ^ a == 0,
{
}

/// Replacing one term of a three-term XOR changes the result by the XOR of
/// the old and the new term.
pub proof fn lemma_xor_term(a: u64, b: u64, c: u64, d: u64)
    by (bit_vector)
    ensures
        ((a ^ b) ^ c) ^ ((d ^ b) ^ c) == a ^ d,
        ((a ^ b) ^ c) ^ ((a ^ d) ^ c) == b ^ d,
        ((a ^ b) ^ c) ^ ((a ^ b) ^ d) == c ^ d,
{
}

/// Two words with the same bits are equal.
pub proof fn lemma_bits_ext(x: u64, y: u64)
    requires
        forall|i: int| 0 <= i < 64 ==> bit(x, i) == bit(y, i),
    ensures
        x == y,
{
    if x != y {
        let z = x ^ y;
        lemma_u64_bit_at(x, y, 0, 0);
        axiom_u64_trailing_zeros(z);
        let t = u64_trailing_zeros(z) as u64;
        assert(t < 64);
        assert((z >> t) & 1 == 1);
        lemma_u64_bit_at(x, y, 0, t);
        assert(bit(x, t as int) != bit(y, t as int));
    }
}

/// Two words with the same bit set are equal.
pub proof fn lemma_bit_set_ext(x: u64, y: u64)
    requires
        bit_set(x) == bit_set(y),
    ensures
        x == y,
{
    assert forall|i: int| 0 <= i < 64 implies bit(x, i) == bit(y, i) by {
        assert(bit_set(x).contains(i) == bit(x, i));
        assert(bit_set(y).contains(i) == bit(y, i));
    }
    lemma_bits_ext(x, y);
}

/// Bit positions are always in `0..64`.
pub proof fn lemma_bit_set_range(x: u64)
    ensures
        forall|i: int| #[trigger] bit_set(x).contains(i) ==> 0 <= i < 64,
{
}

/// The bits of `x | y`, `x & y`, `x ^ y` and `!x`.
pub proof fn lemma_bit_ops(x: u64, y: u64)
    ensures
        bit_set(x | y) == bit_set(x).union(bit_set(y)),
        bit_set(x & y) == bit_set(x).intersect(bit_set(y)),
        bit_set(x ^ y) == bit_set(x).difference(bit_set(y)).union(
            bit_set(y).difference(bit_set(x)),
        ),
        bit_set(!x) == Set::new(|i: int| 0 <= i < 64 && !bit(x, i)),
{
    assert forall|i: int| 0 <= i < 64 implies {
        &&& bit(x | y, i) == (bit(x, i) || bit(y, i))
        &&& bit(x & y, i) == (bit(x, i) && bit(y, i))
        &&& bit(x ^ y, i) == (bit(x, i) != bit(y, i))
        &&& bit(!x, i) == !bit(x, i)
    } by {
        lemma_u64_bit_at(x, y, 0, i as u64);
    }
    assert(bit_set(x | y) =~= bit_set(x).union(bit_set(y)));
    assert(bit_set(x & y) =~= bit_set(x).intersect(bit_set(y)));
    assert(bit_set(x ^ y) =~= bit_set(x).difference(bit_set(y)).union(
        bit_set(y).difference(bit_set(x)),
    ));
    assert(bit_set(!x) =~= Set::new(|i: int| 0 <= i < 64 && !bit(x, i)));
}

/// The bits of a single-bit word, and of setting and clearing one bit.
pub proof fn lemma_single_bit(x: u64, k: u64)
    requires
        k < 64,
    ensures
        bit_set(1u64 << k) == set![k as int],
        bit_set(x | (1u64 << k)) == bit_set(x).insert(k as int),
        bit_set(x & !(1u64 << k)) == bit_set(x).remove(k as int),
        (x & (1u64 << k) != 0) == bit(x, k as int),
{
    assert forall|i: int| #[trigger] bit_set(1u64 << k).contains(i) == set![k as int].contains(i) by {
        if 0 <= i < 64 {
            lemma_u64_bit_at(x, x, k, i as u64);
        }
    }
    assert forall|i: int| #[trigger] bit_set(x | (1u64 << k)).contains(i) == bit_set(x).insert(k as int).contains(i) by {
        if 0 <= i < 64 {
            lemma_u64_bit_at(x, x, k, i as u64);
        }
    }
    assert forall|i: int| #[trigger] bit_set(x & !(1u64 << k)).contains(i) == bit_set(x).remove(k as int).contains(i) by {
        if 0 <= i < 64 {
            lemma_u64_bit_at(x, x, k, i as u64);
        }
    }
    lemma_u64_bit_at(x, x, k, 0);
    assert(bit_set(1u64 << k) =~= set![k as int]);
    assert(bit_set(x | (1u64 << k)) =~= bit_set(x).insert(k as int));
    assert(bit_set(x & !(1u64 << k)) =~= bit_set(x).remove(k as int));
}

/// The empty word has no bits; the full word has all 64.
pub proof fn lemma_zero_bits(x: u64)
    ensures
        bit_set(0) == Set::<int>::empty(),
        (bit_set(x) == Set::<int>::empty()) == (x == 0),
{
    assert forall|i: int| 0 <= i < 64 implies !bit(0, i) by {
        lemma_u64_bit_at(x, x, 0, i as u64);
    }
    assert(bit_set(0) =~= Set::<int>::empty());
    if bit_set(x) == Set::<int>::empty() {
        lemma_bit_set_ext(x, 0);
    }
}

/// The lowest set bit of a nonzero word is its trailing-zero count, and
/// `x & (x - 1)` clears exactly that bit.
pub proof fn lemma_lowest_bit(x: u64)
    requires
        x != 0,
    ensures
        u64_trailing_zeros(x) < 64,
        bit_set(x).contains(u64_trailing_zeros(x) as int),
        forall|j: int| 0 <= j < u64_trailing_zeros(x) ==> !bit_set(x).contains(j),
        bit_set(x & ((x - 1) as u64)) == bit_set(x).remove(u64_trailing_zeros(x) as int),
{
    axiom_u64_trailing_zeros(x);
    let t = u64_trailing_zeros(x) as u64;
    assert forall|j: int| 0 <= j < t implies !bit_set(x).contains(j) by {
        let jj = j as u64;
        assert((x >> jj) & 1u64 == 0u64);
    }
    assert(x & ((x - 1) as u64) == x & !(1u64 << t)) by (bit_vector)
        requires
            x != 0,
            t < 64,
            x << ((64 - t) as u64) == 0,
            (x >> t) & 1 == 1,
    ;
    lemma_single_bit(x, t);
}

/// A word has at most 64 bits set and its bit set is finite; the bit set's
/// size is the word's popcount.
pub proof fn lemma_bit_set_finite(x: u64)
    ensures
        bit_set(x).finite(),
        bit_set(x).subset_of(Set::new(|i: int| 0 <= i < 64)),
        bit_set(x).len() <= 64,
{
    let full = Set::new(|i: int| 0 <= i < 64);
    assert(full =~= vstd::set_lib::set_int_range(0, 64));
    vstd::set_lib::lemma_int_range(0, 64);
    assert(bit_set(x).subset_of(full));
    vstd::set_lib::lemma_len_subset(bit_set(x), full);
}


/// The bits of a file mask, of the squares above or below a rank boundary,
/// and of the two files beside a file.
pub proof fn lemma_mask_bits(f: u64, s: u64, j: u64)
    by (bit_vector)
    requires
        f < 8,
        s < 64,
        j < 64,
    ensures
        ((0x0101_0101_0101_0101u64 << f) >> j) & 1 == 1 <==> j % 8 == f,
        ((0xffff_ffff_ffff_ffffu64 << s) >> j) & 1 == 1 <==> j >= s,
        ((0xffff_ffff_ffff_ffffu64 >> s) >> j) & 1 == 1 <==> j < 64 - s,
        (((((0x0101_0101_0101_0101u64 << f) << 1u64) & !0x0101_0101_0101_0101u64) | (((
        0x0101_0101_0101_0101u64 << f) >> 1u64) & !(0x0101_0101_0101_0101u64 << 7u64))) >> j) & 1
            == 1 <==> (j % 8 == f + 1 || j % 8 + 1 == f),
{
}

} // verus!
