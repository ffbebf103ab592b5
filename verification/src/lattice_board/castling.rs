use vstd::prelude::*;

verus! {

/// The four castling rights as a bitset (one bit each: white/black x
/// king/queen side): bit 0 white kingside, bit 1 white queenside, bit 2 black
/// kingside, bit 3 black queenside.
#[derive(Clone, Copy, PartialEq, Eq, Structural, PartialOrd, Ord, Hash, Default, Debug)]
pub struct CastlingRights(u8);

impl CastlingRights {
    #[verifier::type_invariant]
    spec fn inv(self) -> bool {
        self.0 <= 15
    }

    /// The 4-bit mask.
    pub closed spec fn mask(self) -> u8 {
        self.0
    }

    /// A set of rights is its mask.
    pub proof fn lemma_mask(self, other: CastlingRights)
        ensures
            self.mask() == other.mask() ==> self == other,
    {
    }

    /// An empty set of rights.
    pub fn new() -> (r: CastlingRights)
        ensures
            r.mask() == 0,
    {
        CastlingRights(0)
    }

    /// Wrap a raw 4-bit mask; no bits above the low four may be set.
    pub fn from_u8(value: u8) -> (r: CastlingRights)
        requires
            value <= 15,
        ensures
            r.mask() == value,
    {
        CastlingRights(value)
    }

    /// The raw 4-bit mask.
    pub fn as_u8(self) -> (v: u8)
        ensures
            v == self.mask(),
            v <= 15,
    {
        proof {
            use_type_invariant(self);
        }
        self.0
    }

    /// No castling rights.
    pub fn none() -> (r: CastlingRights)
        ensures
            r.mask() == 0,
    {
        CastlingRights(0)
    }

    /// All four rights.
    pub fn all() -> (r: CastlingRights)
        ensures
            r.mask() == 15,
    {
        CastlingRights(15)
    }

    /// White may castle kingside (O-O).
    pub fn white_kingside() -> (r: CastlingRights)
        ensures
            r.mask() == 1,
    {
        CastlingRights(1)
    }

    /// White may castle queenside (O-O-O).
    pub fn white_queenside() -> (r: CastlingRights)
        ensures
            r.mask() == 2,
    {
        CastlingRights(2)
    }

    /// Black may castle kingside (O-O).
    pub fn black_kingside() -> (r: CastlingRights)
        ensures
            r.mask() == 4,
    {
        CastlingRights(4)
    }

    /// Black may castle queenside (O-O-O).
    pub fn black_queenside() -> (r: CastlingRights)
        ensures
            r.mask() == 8,
    {
        CastlingRights(8)
    }

    /// Does this set contain every right in `right`?
    pub fn contains(self, right: CastlingRights) -> (b: bool)
        ensures
            b == (self.mask() & right.mask() == right.mask()),
    {
        self.0 & right.0 == right.0
    }

    /// The rights in either set.
    pub fn union(self, rhs: CastlingRights) -> (r: CastlingRights)
        ensures
            r.mask() == self.mask() | rhs.mask(),
            r.mask() <= 15,
    {
        proof {
            use_type_invariant(self);
            use_type_invariant(rhs);
        }
        let a = self.0;
        let b = rhs.0;
        proof {
            crate::bits::lemma_u8_pair(a, b);
        }
        CastlingRights(a | b)
    }

    /// The rights in both sets.
    pub fn intersection(self, rhs: CastlingRights) -> (r: CastlingRights)
        ensures
            r.mask() == self.mask() & rhs.mask(),
            r.mask() <= 15,
    {
        proof {
            use_type_invariant(self);
        }
        let a = self.0;
        let b = rhs.0;
        proof {
            crate::bits::lemma_u8_pair(a, b);
        }
        CastlingRights(a & b)
    }

    /// The rights not in the set.
    pub fn complement(self) -> (r: CastlingRights)
        ensures
            r.mask() == !self.mask() & 15,
    {
        let a = self.0;
        proof {
            crate::bits::lemma_u8_bits(a);
        }
        CastlingRights(!a & 15)
    }
}

} // verus!
