//! Whitespace-separated words and unsigned numbers in UTF-8 text, read the
//! way `str::split_whitespace` and `str::parse` read them.

use vstd::prelude::*;

verus! {

/// The length in bytes of the whitespace character (Unicode `White_Space`)
/// that starts at byte `i` of the UTF-8 text `s`, or 0 when none does.
pub open spec fn ws_len(s: Seq<u8>, i: int) -> int {
    let b = s[i];
    if b == 9 || b == 10 || b == 11 || b == 12 || b == 13 || b == 32 {
        1
    } else if b == 0xC2 && i + 1 < s.len() && (s[i + 1] == 0x85 || s[i + 1] == 0xA0) {
        2
    } else if i + 2 < s.len() && ((b == 0xE1 && s[i + 1] == 0x9A && s[i + 2] == 0x80) || (b
        == 0xE2 && s[i + 1] == 0x80 && ((0x80 <= s[i + 2] && s[i + 2] <= 0x8A) || s[i + 2] == 0xA8
        || s[i + 2] == 0xA9 || s[i + 2] == 0xAF)) || (b == 0xE2 && s[i + 1] == 0x81 && s[i + 2]
        == 0x9F) || (b == 0xE3 && s[i + 1] == 0x80 && s[i + 2] == 0x80)) {
        3
    } else {
        0
    }
}

/// The byte ranges `(start, end)` of the words of `s` from byte `i` on, when
/// a word began at `start` (if given) and is still open at `i`.
pub open spec fn words_from(s: Seq<u8>, i: int, start: Option<int>) -> Seq<(int, int)>
    decreases s.len() - i,
{
    if i >= s.len() || i < 0 {
        match start {
            Some(a) => seq![(a, s.len() as int)],
            None => Seq::empty(),
        }
    } else if ws_len(s, i) > 0 {
        let here = match start {
            Some(a) => seq![(a, i)],
            None => Seq::empty(),
        };
        here + words_from(s, i + ws_len(s, i), None)
    } else {
        words_from(s, i + 1, if start is Some { start } else { Some(i) })
    }
}

/// The byte ranges of the whitespace-separated words of `s`.
pub open spec fn word_ranges(s: Seq<u8>) -> Seq<(int, int)> {
    words_from(s, 0, None)
}

/// The whitespace-separated words of `s`.
pub open spec fn words(s: Seq<u8>) -> Seq<Seq<u8>> {
    word_ranges(s).map_values(|r: (int, int)| s.subrange(r.0, r.1))
}

/// Every word range from `i` on is a nonempty range of `s` that starts at or
/// after `i`, or at the open word's start.
pub proof fn lemma_words_from_bounds(s: Seq<u8>, i: int, start: Option<int>)
    requires
        0 <= i <= s.len(),
        start matches Some(a) ==> 0 <= a < i,
    ensures
        forall|k: int|
            0 <= k < words_from(s, i, start).len() ==> {
                let r = #[trigger] words_from(s, i, start)[k];
                &&& 0 <= r.0 < r.1 <= s.len()
                &&& r.0 >= (match start {
                    Some(a) => a,
                    None => i,
                })
            },
    decreases s.len() - i,
{
    if i < s.len() {
        if ws_len(s, i) > 0 {
            lemma_words_from_bounds(s, i + ws_len(s, i), None);
            let here = match start {
                Some(a) => seq![(a, i)],
                None => Seq::<(int, int)>::empty(),
            };
            let rest = words_from(s, i + ws_len(s, i), None);
            assert(words_from(s, i, start) == here + rest);
            assert forall|k: int| 0 <= k < (here + rest).len() implies {
                let r = #[trigger] (here + rest)[k];
                &&& 0 <= r.0 < r.1 <= s.len()
                &&& r.0 >= (match start {
                    Some(a) => a,
                    None => i,
                })
            } by {
                if k >= here.len() {
                    assert((here + rest)[k] == rest[k - here.len()]);
                }
            }
        } else {
            let st = if start is Some { start } else { Some(i) };
            lemma_words_from_bounds(s, i + 1, st);
            assert(words_from(s, i, start) == words_from(s, i + 1, st));
        }
    }
}

/// The ranges of the words, with their bounds.
pub proof fn lemma_word_ranges(s: Seq<u8>)
    ensures
        forall|k: int|
            0 <= k < word_ranges(s).len() ==> 0 <= (#[trigger] word_ranges(s)[k]).0 < word_ranges(
                s,
            )[k].1 <= s.len(),
        words(s).len() == word_ranges(s).len(),
        forall|k: int|
            0 <= k < words(s).len() ==> #[trigger] words(s)[k] == s.subrange(
                word_ranges(s)[k].0,
                word_ranges(s)[k].1,
            ),
{
    lemma_words_from_bounds(s, 0, None);
}

/// The length of the whitespace character at byte `i`, or 0.
pub(crate) fn ws_len_exec(s: &[u8], i: usize) -> (n: usize)
    requires
        i < s@.len(),
    ensures
        n == ws_len(s@, i as int),
{
    let b = s[i];
    if b == 9 || b == 10 || b == 11 || b == 12 || b == 13 || b == 32 {
        return 1;
    }
    if b == 0xC2 && i + 1 < s.len() && (s[i + 1] == 0x85 || s[i + 1] == 0xA0) {
        return 2;
    }
    if s.len() - i > 2 {
        let (c, d) = (s[i + 1], s[i + 2]);
        if (b == 0xE1 && c == 0x9A && d == 0x80) || (b == 0xE2 && c == 0x80 && ((0x80 <= d && d
            <= 0x8A) || d == 0xA8 || d == 0xA9 || d == 0xAF)) || (b == 0xE2 && c == 0x81 && d
            == 0x9F) || (b == 0xE3 && c == 0x80 && d == 0x80) {
            return 3;
        }
    }
    0
}

/// Splits `s` at runs of whitespace, returning each word's byte range.
pub fn split_words(s: &[u8]) -> (r: Vec<(usize, usize)>)
    ensures
        r@.len() == word_ranges(s@).len(),
        forall|k: int|
            0 <= k < r@.len() ==> (#[trigger] r@[k]).0 as int == word_ranges(s@)[k].0 && r@[k].1
                as int == word_ranges(s@)[k].1,
        forall|k: int| 0 <= k < r@.len() ==> (#[trigger] r@[k]).0 < r@[k].1 <= s@.len(),
{
    let mut r: Vec<(usize, usize)> = Vec::new();
    let mut i: usize = 0;
    let mut start: Option<usize> = None;
    let ghost acc: Seq<(int, int)> = Seq::empty();
    proof {
        lemma_word_ranges(s@);
    }
    while i < s.len()
        invariant
            i <= s@.len(),
            start matches Some(a) ==> a < i,
            r@.len() == acc.len(),
            forall|k: int|
                0 <= k < r@.len() ==> (#[trigger] r@[k]).0 as int == acc[k].0 && r@[k].1 as int
                    == acc[k].1,
            word_ranges(s@) == acc + words_from(
                s@,
                i as int,
                match start {
                    Some(a) => Some(a as int),
                    None => None,
                },
            ),
        decreases s@.len() - i,
    {
        let w = ws_len_exec(s, i);
        let ghost st = match start {
            Some(a) => Some(a as int),
            None => None::<int>,
        };
        if w > 0 {
            let ghost here = match st {
                Some(a) => seq![(a, i as int)],
                None => Seq::<(int, int)>::empty(),
            };
            assert(words_from(s@, i as int, st) == here + words_from(s@, i + w, None));
            if let Some(a) = start {
                r.push((a, i));
            }
            proof {
                assert(acc + (here + words_from(s@, i + w, None)) =~= (acc + here) + words_from(
                    s@,
                    i + w,
                    None,
                ));
                acc = acc + here;
            }
            start = None;
            i = i + w;
        } else {
            if start.is_none() {
                start = Some(i);
            }
            i = i + 1;
        }
    }
    if let Some(a) = start {
        r.push((a, i));
        proof {
            acc = acc.push((a as int, i as int));
        }
    }
    proof {
        assert(acc =~= word_ranges(s@));
        assert forall|k: int| 0 <= k < r@.len() implies (#[trigger] r@[k]).0 < r@[k].1 <= s@.len() by {
            assert(0 <= word_ranges(s@)[k].0 < word_ranges(s@)[k].1 <= s@.len());
        }
    }
    r
}

/// Whether `b` is an ASCII digit.
pub open spec fn is_digit(b: u8) -> bool {
    48 <= b <= 57
}

/// The value of a string of decimal digits.
pub open spec fn digits_value(d: Seq<u8>) -> int
    decreases d.len(),
{
    if d.len() == 0 {
        0
    } else {
        10 * digits_value(d.drop_last()) + (d.last() - 48)
    }
}

/// The digits of an unsigned number's text: all of it, or what follows a
/// leading `+` that is not the whole text.
pub open spec fn unsigned_digits(t: Seq<u8>) -> Seq<u8> {
    if t.len() > 1 && t[0] == 43 {
        t.subrange(1, t.len() as int)
    } else {
        t
    }
}

/// Whether every byte of `d` is an ASCII digit.
pub open spec fn all_digits(d: Seq<u8>) -> bool {
    forall|i: int| 0 <= i < d.len() ==> is_digit(#[trigger] d[i])
}

/// What `str::parse` gives for an unsigned integer type whose largest value
/// is `max`: an optional `+`, then one or more digits whose value fits.
pub open spec fn parse_unsigned(t: Seq<u8>, max: int) -> Option<int> {
    let d = unsigned_digits(t);
    if d.len() > 0 && all_digits(d) && digits_value(d) <= max {
        Some(digits_value(d))
    } else {
        None
    }
}

/// A longer string of digits is worth at least as much as its prefix.
proof fn lemma_digits_monotone(d: Seq<u8>, k: int)
    requires
        0 <= k <= d.len(),
        forall|i: int| 0 <= i < d.len() ==> is_digit(#[trigger] d[i]),
    ensures
        0 <= digits_value(d.take(k)) <= digits_value(d),
    decreases d.len() - k,
{
    if k < d.len() {
        lemma_digits_monotone(d, k + 1);
        assert(d.take(k + 1).drop_last() =~= d.take(k));
        assert(d.take(k + 1).last() == d[k]);
    } else {
        assert(d.take(k) =~= d);
        lemma_digits_nonneg(d);
    }
}

/// A string of digits has a value of at least zero.
proof fn lemma_digits_nonneg(d: Seq<u8>)
    requires
        forall|i: int| 0 <= i < d.len() ==> is_digit(#[trigger] d[i]),
    ensures
        digits_value(d) >= 0,
    decreases d.len(),
{
    if d.len() > 0 {
        lemma_digits_nonneg(d.drop_last());
    }
}

/// Reads bytes `a..b` of `s` as an unsigned number no larger than `max`, as
/// `str::parse` does: `None` when they are not one, or it is too large.
pub fn parse_unsigned_exec(s: &[u8], a: usize, b: usize, max: u64) -> (r: Option<u64>)
    requires
        a <= b <= s@.len(),
    ensures
        match r {
            Some(v) => parse_unsigned(s@.subrange(a as int, b as int), max as int) == Some(
                v as int,
            ),
            None => parse_unsigned(s@.subrange(a as int, b as int), max as int) is None,
        },
{
    let ghost t = s@.subrange(a as int, b as int);
    let mut i = a;
    if b - a > 1 && s[a] == 43 {
        i = a + 1;
    }
    let ghost d = s@.subrange(i as int, b as int);
    assert(d =~= unsigned_digits(t));
    if i == b {
        return None;
    }
    let mut v: u64 = 0;
    let mut j = i;
    while j < b
        invariant
            i <= j <= b <= s@.len(),
            d == s@.subrange(i as int, b as int),
            t == s@.subrange(a as int, b as int),
            d == unsigned_digits(t),
            forall|k: int| 0 <= k < j - i ==> is_digit(#[trigger] d[k]),
            v as int == digits_value(d.take(j - i)),
            v <= max,
        decreases b - j,
    {
        let c = s[j];
        if c < 48 || c > 57 {
            assert(!is_digit(d[j - i]));
            return None;
        }
        proof {
            assert(d.take(j - i + 1).drop_last() =~= d.take(j - i));
            assert(d.take(j - i + 1).last() == c);
        }
        let next = match v.checked_mul(10) {
            Some(m) => m.checked_add((c - 48) as u64),
            None => None,
        };
        match next {
            Some(n) if n <= max => {
                v = n;
            },
            _ => {
                proof {
                    if all_digits(d) {
                        lemma_digits_monotone(d, j - i + 1);
                    }
                }
                return None;
            },
        }
        j = j + 1;
    }
    assert(d.take(j - i) =~= d);
    Some(v)
}

} // verus!
