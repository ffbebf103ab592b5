use vstd::prelude::*;

verus! {

/// A board square indexed in little-endian rank-file order (a1 = 0 ... h8 = 63).
#[derive(Debug, Clone, Copy, PartialEq, Eq, Structural)]
pub struct Square(u8);

impl Square {
    #[verifier::type_invariant]
    spec fn inv(self) -> bool {
        self.0 < 64
    }

    /// The square's index `0..64`.
    pub closed spec fn idx(self) -> int {
        self.0 as int
    }

    /// The square with index `i`.
    pub closed spec fn at(i: int) -> Square {
        Square(i as u8)
    }

    /// A square is its index.
    pub proof fn lemma_at(self, i: int)
        ensures
            0 <= i < 64 ==> Square::at(i).idx() == i,
            Square::at(self.idx()) == self,
    {
    }

    /// Builds a square from a zero-based file and rank.
    pub fn new(file: u8, rank: u8) -> (s: Option<Square>)
        ensures
            s is Some <==> (file < 8 && rank < 8),
            s is Some ==> s->0.idx() == 8 * rank + file,
    {
        if file < 8 && rank < 8 {
            Some(Self::new_unchecked(rank * 8 + file))
        } else {
            None
        }
    }

    /// Builds a square from its index if it is in the range `0..64`.
    pub fn from_index(index: u8) -> (s: Option<Square>)
        ensures
            s is Some <==> index < 64,
            s is Some ==> s->0.idx() == index,
    {
        if index < 64 {
            Some(Self::new_unchecked(index))
        } else {
            None
        }
    }

    /// Builds a square from an index in the range `0..64`.
    pub fn new_unchecked(index: u8) -> (s: Square)
        requires
            index < 64,
        ensures
            s.idx() == index,
            s == Square::at(index as int),
    {
        let i = index & 63;
        proof {
            crate::bits::lemma_u8_bits(index);
            assert(index & 63 == index) by {
                crate::bits::lemma_u8_pair(index, 63);
            }
        }
        Square(i)
    }

    /// Returns the zero-based file.
    pub fn file(self) -> (f: u8)
        ensures
            f == self.idx() % 8,
            f < 8,
            0 <= self.idx() < 64,
    {
        let i = self.index();
        proof {
            crate::bits::lemma_u8_bits(i);
        }
        i & 7
    }

    /// Returns the zero-based rank.
    pub fn rank(self) -> (r: u8)
        ensures
            r == self.idx() / 8,
            r < 8,
            0 <= self.idx() < 64,
    {
        let i = self.index();
        proof {
            crate::bits::lemma_u8_bits(i);
        }
        i >> 3
    }

    /// Returns the little-endian rank-file index.
    pub fn index(self) -> (i: u8)
        ensures
            i == self.idx(),
            i < 64,
    {
        proof {
            use_type_invariant(self);
        }
        self.0
    }

    /// Returns the square mirrored vertically across the board.
    pub fn flip_rank(self) -> (s: Square)
        ensures
            s.idx() == 8 * (7 - self.idx() / 8) + self.idx() % 8,
    {
        let i = self.index();
        let f = i ^ 56;
        proof {
            crate::bits::lemma_u8_flip(i);
        }
        Self::new_unchecked(f)
    }
}

/// Flipping the rank twice gives the square back.
pub proof fn lemma_flip_rank_involution(i: int)
    requires
        0 <= i < 64,
    ensures
        8 * (7 - (8 * (7 - i / 8) + i % 8) / 8) + (8 * (7 - i / 8) + i % 8) % 8 == i,
{
}

} // verus!
