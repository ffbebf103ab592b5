use vstd::prelude::*;
use vstd::std_specs::bits::u64_trailing_zeros;
use crate::bits::{bit, bit_set, lemma_bit_ops, lemma_bit_set_ext, lemma_bit_set_finite, lemma_lowest_bit, lemma_single_bit, lemma_zero_bits};
use crate::board::Square;

verus! {

/// A set of squares stored in little-endian rank-file order (bit `i` is the
/// square with index `i`).
#[derive(Debug, Default, Clone, Copy, PartialEq, Eq, Structural)]
pub struct Bitboard(u64);

impl View for Bitboard {
    type V = Set<int>;

    closed spec fn view(&self) -> Set<int> {
        bit_set(self.0)
    }
}

/// The lowest element of a nonempty set of square indices.
pub open spec fn is_lowest(s: Set<int>, i: int) -> bool {
    s.contains(i) && forall|j: int| 0 <= j < i ==> !s.contains(j)
}

/// Counts the squares of a word's bit set by clearing its lowest bit until
/// none is left.
fn count_bits(x: u64) -> (n: u32)
    ensures
        n == bit_set(x).len(),
        n <= 64,
{
    let mut rest = x;
    let mut n: u32 = 0;
    proof {
        lemma_bit_set_finite(x);
    }
    while rest != 0
        invariant
            bit_set(rest).finite(),
            n + bit_set(rest).len() == bit_set(x).len(),
            bit_set(x).len() <= 64,
        decreases bit_set(rest).len(),
    {
        proof {
            lemma_lowest_bit(rest);
            lemma_bit_set_finite((rest & ((rest - 1) as u64)) as u64);
        }
        rest = rest & (rest - 1);
        n = n + 1;
    }
    proof {
        lemma_zero_bits(rest);
    }
    n
}

impl Bitboard {
    /// The raw bits as a spec value.
    pub closed spec fn raw(self) -> u64 {
        self.0
    }

    /// A bitboard's squares are the bits of its raw value, all in `0..64`.
    pub proof fn lemma_view(self)
        ensures
            self@ == bit_set(self.raw()),
            self@.finite(),
            self@.len() <= 64,
            forall|i: int| #[trigger] self@.contains(i) ==> 0 <= i < 64,
    {
        lemma_bit_set_finite(self.0);
    }

    /// Two bitboards with the same squares are equal.
    pub proof fn lemma_ext(a: Bitboard, b: Bitboard)
        requires
            a@ == b@,
        ensures
            a == b,
    {
        lemma_bit_set_ext(a.0, b.0);
    }

    /// Builds a bitboard from its raw bits.
    pub fn new(bits: u64) -> (b: Bitboard)
        ensures
            b.raw() == bits,
            b@ == bit_set(bits),
    {
        Bitboard(bits)
    }

    /// Returns the raw bits.
    pub fn bits(self) -> (v: u64)
        ensures
            v == self.raw(),
            bit_set(v) == self@,
    {
        self.0
    }

    /// Returns an empty bitboard.
    pub fn empty() -> (b: Bitboard)
        ensures
            b@ == Set::<int>::empty(),
    {
        proof {
            lemma_zero_bits(0);
        }
        Bitboard(0)
    }

    /// Returns a bitboard containing one square.
    pub fn from_square(square: Square) -> (b: Bitboard)
        ensures
            b@ == set![square.idx()],
    {
        let i = square.index();
        proof {
            lemma_single_bit(0, i as u64);
        }
        Bitboard(1u64 << i)
    }

    /// Returns whether the square is present.
    pub fn contains(self, square: Square) -> (b: bool)
        ensures
            b == self@.contains(square.idx()),
    {
        let i = square.index();
        proof {
            lemma_single_bit(self.0, i as u64);
        }
        self.0 & (1u64 << i) != 0
    }

    /// Inserts a square.
    pub fn set(&mut self, square: Square)
        ensures
            final(self)@ == old(self)@.insert(square.idx()),
    {
        let i = square.index();
        proof {
            lemma_single_bit(self.0, i as u64);
        }
        self.0 = self.0 | (1u64 << i);
    }

    /// Removes a square.
    pub fn clear(&mut self, square: Square)
        ensures
            final(self)@ == old(self)@.remove(square.idx()),
    {
        let i = square.index();
        proof {
            lemma_single_bit(self.0, i as u64);
        }
        self.0 = self.0 & !(1u64 << i);
    }

    /// Returns whether no squares are present.
    pub fn is_empty(self) -> (b: bool)
        ensures
            b == (self@ == Set::<int>::empty()),
    {
        proof {
            lemma_zero_bits(self.0);
        }
        self.0 == 0
    }

    /// Returns the number of squares present.
    pub fn count(self) -> (n: u32)
        ensures
            n == self@.len(),
            n <= 64,
    {
        count_bits(self.0)
    }

    /// Returns the least significant square, or `None` for an empty set.
    pub fn lsb(self) -> (s: Option<Square>)
        ensures
            s is None <==> self@ == Set::<int>::empty(),
            s matches Some(sq) ==> is_lowest(self@, sq.idx()),
    {
        proof {
            lemma_zero_bits(self.0);
        }
        if self.0 == 0 {
            None
        } else {
            proof {
                lemma_lowest_bit(self.0);
            }
            Some(Square::new_unchecked(self.0.trailing_zeros() as u8))
        }
    }

    /// Removes and returns the least significant square.
    pub fn next(&mut self) -> (s: Option<Square>)
        ensures
            s is None <==> old(self)@ == Set::<int>::empty(),
            s is None ==> final(self)@ == old(self)@,
            s matches Some(sq) ==> is_lowest(old(self)@, sq.idx()) && final(self)@ == old(
                self,
            )@.remove(sq.idx()),
    {
        let square = self.lsb();
        match square {
            None => None,
            Some(sq) => {
                proof {
                    lemma_zero_bits(self.0);
                    lemma_lowest_bit(self.0);
                }
                self.0 = self.0 & (self.0 - 1);
                Some(sq)
            },
        }
    }

    /// The squares in both sets.
    pub fn and(self, rhs: Bitboard) -> (b: Bitboard)
        ensures
            b@ == self@.intersect(rhs@),
    {
        proof {
            lemma_bit_ops(self.0, rhs.0);
        }
        Bitboard(self.0 & rhs.0)
    }

    /// The squares in either set.
    pub fn or(self, rhs: Bitboard) -> (b: Bitboard)
        ensures
            b@ == self@.union(rhs@),
    {
        proof {
            lemma_bit_ops(self.0, rhs.0);
        }
        Bitboard(self.0 | rhs.0)
    }

    /// The squares in exactly one of the sets.
    pub fn xor(self, rhs: Bitboard) -> (b: Bitboard)
        ensures
            b@ == self@.difference(rhs@).union(rhs@.difference(self@)),
    {
        proof {
            lemma_bit_ops(self.0, rhs.0);
        }
        Bitboard(self.0 ^ rhs.0)
    }

    /// The squares not in the set.
    pub fn complement(self) -> (b: Bitboard)
        ensures
            b@ == Set::new(|i: int| 0 <= i < 64 && !self@.contains(i)),
    {
        proof {
            lemma_bit_ops(self.0, self.0);
            assert(Set::new(|i: int| 0 <= i < 64 && !bit(self.0, i)) =~= Set::new(
                |i: int| 0 <= i < 64 && !self@.contains(i),
            ));
        }
        Bitboard(!self.0)
    }
}

} // verus!
