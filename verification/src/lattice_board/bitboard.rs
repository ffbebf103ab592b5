use vstd::prelude::*;
use vstd::std_specs::bits::u64_trailing_zeros;
use crate::bits::{bit, bit_set, lemma_bit_ops, lemma_bit_set_finite, lemma_bit_set_ext, lemma_lowest_bit, lemma_single_bit, lemma_zero_bits};
use crate::lattice_board::Square;

verus! {

/// A set of squares as 64 bits, indexed like [`Square`] (a1 = bit 0, h8 = bit 63).
#[derive(Debug, Clone, Copy, PartialEq, Eq, Structural, Hash, Default)]
pub struct Bitboard(u64);

/// The squares on `file` (`i % 8 == file`).
pub open spec fn file_squares(file: int) -> Set<int> {
    Set::new(|i: int| 0 <= i < 64 && i % 8 == file)
}

/// The squares on `rank` (`i / 8 == rank`).
pub open spec fn rank_squares(rank: int) -> Set<int> {
    Set::new(|i: int| 0 <= i < 64 && i / 8 == rank)
}

/// Counts the squares of a bit set by clearing its lowest bit until none is left.
fn count_bits(x: u64) -> (n: u32)
    ensures
        n == bit_set(x).len(),
        n <= 64,
{
    let mut rest = x;
    let mut n: u32 = 0;
    proof {
        lemma_bit_set_finite(x);
    }
    while rest != 0
        invariant
            bit_set(rest).finite(),
            n + bit_set(rest).len() == bit_set(x).len(),
            bit_set(x).len() <= 64,
        decreases bit_set(rest).len(),
    {
        proof {
            lemma_lowest_bit(rest);
            lemma_bit_set_finite((rest & ((rest - 1) as u64)) as u64);
        }
        rest = rest & (rest - 1);
        n = n + 1;
    }
    proof {
        lemma_zero_bits(rest);
    }
    n
}

impl View for Bitboard {
    type V = Set<int>;

    closed spec fn view(&self) -> Set<int> {
        bit_set(self.0)
    }
}

impl Bitboard {
    /// A bitboard with no squares set.
    pub fn empty() -> (b: Bitboard)
        ensures
            b@ == Set::<int>::empty(),
    {
        proof {
            lemma_zero_bits(0);
        }
        Bitboard(0)
    }

    /// The raw 64-bit value as a spec value.
    pub closed spec fn raw(self) -> u64 {
        self.0
    }

    /// A bitboard's squares are exactly the bits of its raw value.
    pub proof fn lemma_view_is_bits(self)
        ensures
            self@ == bit_set(self.raw()),
            self@.finite(),
            forall|i: int| #[trigger] self@.contains(i) ==> 0 <= i < 64,
    {
        lemma_bit_set_finite(self.0);
    }

    /// Two bitboards with the same squares are equal.
    pub proof fn lemma_ext(a: Bitboard, b: Bitboard)
        requires
            a@ == b@,
        ensures
            a == b,
    {
        lemma_bit_set_ext(a.0, b.0);
    }

    /// Bitboard of every square on a certain `file` (`0..8`, files a-h).
    pub fn file_mask(file: u8) -> (b: Bitboard)
        requires
            file < 8,
        ensures
            b@ == file_squares(file as int),
    {
        let m: u64 = 0x0101_0101_0101_0101u64 << file;
        proof {
            assert forall|i: int| #[trigger] bit_set(m).contains(i) == file_squares(file as int).contains(i) by {
                if 0 <= i < 64 {
                    let j = i as u64;
                    let f = file as u64;
                    assert(f < 8 && j < 64 ==> ((((0x0101_0101_0101_0101u64 << f) >> j) & 1 == 1)
                        <==> j % 8 == f)) by (bit_vector);
                }
            }
            assert(bit_set(m) =~= file_squares(file as int));
        }
        Bitboard(m)
    }

    /// Bitboard of every square on a certain `rank` (`0..8`, ranks 1-8).
    pub fn rank_mask(rank: u8) -> (b: Bitboard)
        requires
            rank < 8,
        ensures
            b@ == rank_squares(rank as int),
    {
        let m: u64 = 0xffu64 << (rank * 8);
        assert(m == 0xffu64 << ((rank * 8) as u64));
        proof {
            assert forall|i: int| #[trigger] bit_set(m).contains(i) == rank_squares(rank as int).contains(i) by {
                if 0 <= i < 64 {
                    let j = i as u64;
                    let r = rank as u64;
                    assert(r < 8 && j < 64 ==> ((((0xffu64 << ((r * 8) as u64)) >> j) & 1 == 1) <==> j / 8 == r))
                        by (bit_vector);
                }
            }
            assert(bit_set(m) =~= rank_squares(rank as int));
        }
        Bitboard(m)
    }

    /// A bitboard with only the single square `sq`.
    pub fn from_square(sq: Square) -> (b: Bitboard)
        ensures
            b@ == set![sq.idx()],
    {
        let i = sq.index();
        proof {
            lemma_single_bit(0, i as u64);
        }
        Bitboard(1u64 << i)
    }

    /// Wrap a raw 64-bit value.
    pub fn from_bits(bits: u64) -> (b: Bitboard)
        ensures
            b.raw() == bits,
            b@ == bit_set(bits),
    {
        Bitboard(bits)
    }

    /// The raw 64-bit value.
    pub fn bits(self) -> (v: u64)
        ensures
            v == self.raw(),
            bit_set(v) == self@,
    {
        self.0
    }

    /// Whether `sq` is in the set.
    pub fn contains(self, sq: Square) -> (b: bool)
        ensures
            b == self@.contains(sq.idx()),
    {
        let i = sq.index();
        proof {
            lemma_single_bit(self.0, i as u64);
        }
        self.0 & (1u64 << i) != 0
    }

    /// Adds `sq` to the set.
    pub fn set(&mut self, sq: Square)
        ensures
            final(self)@ == old(self)@.insert(sq.idx()),
    {
        let i = sq.index();
        proof {
            lemma_single_bit(self.0, i as u64);
        }
        self.0 = self.0 | (1u64 << i);
    }

    /// Removes `sq` from the set.
    pub fn clear(&mut self, sq: Square)
        ensures
            final(self)@ == old(self)@.remove(sq.idx()),
    {
        let i = sq.index();
        proof {
            lemma_single_bit(self.0, i as u64);
        }
        self.0 = self.0 & !(1u64 << i);
    }

    /// Whether the set has no squares.
    pub fn is_empty(self) -> (b: bool)
        ensures
            b == (self@ == Set::<int>::empty()),
    {
        proof {
            lemma_zero_bits(self.0);
        }
        self.0 == 0
    }

    /// The number of squares in the set.
    pub fn count(self) -> (n: u32)
        ensures
            n == self@.len(),
            n <= 64,
    {
        count_bits(self.0)
    }

    /// The squares of the set, yielded a1-first.
    pub fn iter(self) -> (s: Squares)
        ensures
            s@ == self@,
    {
        Squares(self.0)
    }

    /// The squares in both sets.
    pub fn and(self, rhs: Bitboard) -> (b: Bitboard)
        ensures
            b@ == self@.intersect(rhs@),
    {
        proof {
            lemma_bit_ops(self.0, rhs.0);
        }
        Bitboard(self.0 & rhs.0)
    }

    /// The squares in either set.
    pub fn or(self, rhs: Bitboard) -> (b: Bitboard)
        ensures
            b@ == self@.union(rhs@),
    {
        proof {
            lemma_bit_ops(self.0, rhs.0);
        }
        Bitboard(self.0 | rhs.0)
    }

    /// The squares in exactly one of the two sets.
    pub fn xor(self, rhs: Bitboard) -> (b: Bitboard)
        ensures
            b@ == self@.difference(rhs@).union(rhs@.difference(self@)),
    {
        proof {
            lemma_bit_ops(self.0, rhs.0);
        }
        Bitboard(self.0 ^ rhs.0)
    }

    /// The squares not in the set.
    pub fn complement(self) -> (b: Bitboard)
        ensures
            b@ == Set::new(|i: int| 0 <= i < 64 && !self@.contains(i)),
    {
        proof {
            lemma_bit_ops(self.0, self.0);
            assert(Set::new(|i: int| 0 <= i < 64 && !bit(self.0, i)) =~= Set::new(
                |i: int| 0 <= i < 64 && !self@.contains(i),
            ));
        }
        Bitboard(!self.0)
    }
}

/// The remaining squares of a [`Bitboard`], yielded a1-first.
#[derive(Debug, Clone, Copy)]
pub struct Squares(u64);

impl View for Squares {
    type V = Set<int>;

    closed spec fn view(&self) -> Set<int> {
        bit_set(self.0)
    }
}

impl Squares {
    /// Removes and returns the lowest remaining square, or `None` when none remain.
    pub fn next(&mut self) -> (r: Option<Square>)
        ensures
            r is None <==> old(self)@ == Set::<int>::empty(),
            r is None ==> final(self)@ == old(self)@,
            r matches Some(sq) ==> {
                &&& old(self)@.contains(sq.idx())
                &&& forall|j: int| 0 <= j < sq.idx() ==> !old(self)@.contains(j)
                &&& final(self)@ == old(self)@.remove(sq.idx())
            },
    {
        proof {
            lemma_zero_bits(self.0);
        }
        if self.0 == 0 {
            return None;
        }
        proof {
            lemma_lowest_bit(self.0);
        }
        let index = self.0.trailing_zeros() as u8;
        self.0 = self.0 & (self.0 - 1);
        Some(Square::from_index(index))
    }

    /// The number of squares still to be yielded.
    pub fn len(&self) -> (n: usize)
        ensures
            n == self@.len(),
    {
        count_bits(self.0) as usize
    }
}

} // verus!
