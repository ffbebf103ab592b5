use vstd::prelude::*;

verus! {

/// A board square, indexed little-endian rank-file: a1 = 0, b1 = 1, ... h8 = 63.
#[derive(Debug, Clone, Copy, PartialEq, Eq, Structural, Ord, PartialOrd, Hash)]
pub struct Square(u8);

/// Why a square name failed to parse.
#[derive(Debug, Clone, Copy, PartialEq, Eq, Structural)]
pub struct ParseSquareError;

/// Whether `b` is one of the file letters `a..=h`.
pub open spec fn is_file_letter(b: u8) -> bool {
    97 <= b <= 104
}

/// Whether `b` is one of the rank digits `1..=8`.
pub open spec fn is_rank_digit(b: u8) -> bool {
    49 <= b <= 56
}

impl Square {
    #[verifier::type_invariant]
    spec fn inv(self) -> bool {
        self.0 < 64
    }

    /// The square's index `0..64`.
    pub closed spec fn idx(self) -> int {
        self.0 as int
    }

    /// The square with index `index` (`0..64`).
    pub fn from_index(index: u8) -> (s: Square)
        requires
            index < 64,
        ensures
            s.idx() == index,
    {
        Square(index)
    }

    /// The square on zero-based `rank` and `file`.
    pub fn new(rank: u8, file: u8) -> (s: Square)
        requires
            rank < 8,
            file < 8,
        ensures
            s.idx() == 8 * rank + file,
    {
        Square(rank * 8 + file)
    }

    /// The square's index `0..64`.
    pub fn index(self) -> (i: u8)
        ensures
            i == self.idx(),
            i < 64,
    {
        proof {
            use_type_invariant(self);
        }
        self.0
    }

    /// The zero-based file (`0 = a` ... `7 = h`).
    pub fn file(self) -> (f: u8)
        ensures
            f == self.idx() % 8,
            f < 8,
    {
        let i = self.index();
        let f = i & 7;
        proof {
            crate::bits::lemma_u8_bits(i);
        }
        f
    }

    /// The zero-based rank (`0 = rank 1` ... `7 = rank 8`).
    pub fn rank(self) -> (r: u8)
        ensures
            r == self.idx() / 8,
            r < 8,
    {
        let i = self.index();
        let r = i >> 3;
        proof {
            crate::bits::lemma_u8_bits(i);
        }
        r
    }

    /// Parse a square name such as `e4`: a file letter `a..h` followed by a
    /// rank digit `1..8`, and nothing else.
    pub fn from_ascii(s: &[u8]) -> (r: Result<Square, ParseSquareError>)
        ensures
            r is Ok <==> (s@.len() == 2 && is_file_letter(s@[0]) && is_rank_digit(s@[1])),
            r matches Ok(sq) ==> sq.idx() == 8 * (s@[1] - 49) + (s@[0] - 97),
    {
        if s.len() != 2 {
            return Err(ParseSquareError);
        }
        let f = s[0];
        let r = s[1];
        if f < 97 || f > 104 || r < 49 || r > 56 {
            return Err(ParseSquareError);
        }
        Ok(Square::new(r - 49, f - 97))
    }

    /// The square's name, such as `e4`, as its two ASCII bytes.
    pub fn name(self) -> (n: [u8; 2])
        ensures
            n@[0] == 97 + self.idx() % 8,
            n@[1] == 49 + self.idx() / 8,
    {
        let f = self.file();
        let r = self.rank();
        [97 + f, 49 + r]
    }
}

} // verus!
