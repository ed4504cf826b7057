//! Byte-level text utilities: newline counting, line splitting, ASCII
//! case folding, substring search and decimal rendering.
//!
//! Source files are handled as byte sequences throughout the crate, so that
//! byte offsets coming from parsers stay exact and slicing never depends on
//! character boundaries.

use vstd::prelude::*;

verus! {

/// The newline byte.
pub const NEWLINE: u8 = 10;

/// The carriage-return byte.
pub const CARRIAGE_RETURN: u8 = 13;

/// How many newline bytes occur in `s` before position `upto`.
pub open spec fn spec_newlines(s: Seq<u8>, upto: int) -> int
    decreases upto,
{
    if upto <= 0 {
        0
    } else {
        spec_newlines(s, upto - 1) + if 0 <= upto - 1 < s.len() && s[upto - 1] == NEWLINE {
            1int
        } else {
            0int
        }
    }
}

/// Newline counts never decrease along the text and never exceed it.
pub proof fn lemma_newlines_bounds(s: Seq<u8>, upto: int)
    ensures
        0 <= spec_newlines(s, upto) <= (if upto >= 0 {
            upto
        } else {
            0
        }),
    decreases (if upto >= 0 { upto } else { 0 }),
{
    if upto > 0 {
        lemma_newlines_bounds(s, upto - 1);
    }
}

/// Count the newline bytes of `s` before position `upto`.
pub fn count_newlines(s: &[u8], upto: usize) -> (res: usize)
    requires
        upto <= s@.len(),
    ensures
        res as int == spec_newlines(s@, upto as int),
{
    let mut res: usize = 0;
    let mut i: usize = 0;
    while i < upto
        invariant
            i <= upto <= s@.len(),
            res as int == spec_newlines(s@, i as int),
        decreases upto - i,
    {
        proof {
            lemma_newlines_bounds(s@, i as int);
        }
        if s[i] == NEWLINE {
            res = res + 1;
        }
        i = i + 1;
    }
    res
}

/// The decimal digits of `n`, most significant first.
pub open spec fn spec_digits(n: int) -> Seq<u8>
    decreases n,
{
    if n < 10 {
        seq![(48 + (if n >= 0 {
            n
        } else {
            0
        })) as u8]
    } else {
        spec_digits(n / 10).push((48 + n % 10) as u8)
    }
}

/// Render `n` in decimal.
pub fn digits_u64(n: u64) -> (res: Vec<u8>)
    ensures
        res@ == spec_digits(n as int),
    decreases n,
{
    if n < 10 {
        let mut v: Vec<u8> = Vec::new();
        v.push(48 + (n as u8));
        proof {
            assert(v@ =~= spec_digits(n as int));
        }
        v
    } else {
        let mut v = digits_u64(n / 10);
        v.push(48 + ((n % 10) as u8));
        v
    }
}

/// The Unicode lower-case folding of a byte text: the UTF-8 bytes of what
/// the standard lower-casing returns on the decoded text. The full mapping
/// takes the Unicode tables to state, so it stands as a name; it is a
/// function of the bytes alone.
pub uninterp spec fn lower_of(s: Seq<u8>) -> Seq<u8>;

/// Relies on str::to_lowercase, with str::from_utf8 converting the bytes in
/// and String::into_bytes converting the result out: the Unicode lower-case
/// folding of the text, a function of its bytes alone. Bytes that do not
/// decode as UTF-8 come back unchanged.
#[verifier::external_body]
pub(crate) fn unicode_lowercase(v: &[u8]) -> (res: Vec<u8>)
    ensures
        res@ == lower_of(v@),
{
    match std::str::from_utf8(v) {
        Ok(s) => s.to_lowercase().into_bytes(),
        Err(_) => v.to_vec(),
    }
}

/// Whether `needle` occurs contiguously inside `hay`.
pub open spec fn spec_contains_sub(hay: Seq<u8>, needle: Seq<u8>) -> bool {
    exists|i: int|
        0 <= i && i + needle.len() <= hay.len() && #[trigger] hay.subrange(i, i + needle.len())
            == needle
}

/// Whether `needle` occurs in `hay` starting at position `i`.
fn matches_at(hay: &[u8], needle: &[u8], i: usize) -> (res: bool)
    requires
        i + needle@.len() <= hay@.len(),
    ensures
        res == (hay@.subrange(i as int, i as int + needle@.len() as int) == needle@),
{
    let nn = hay.len();
    let m = needle.len();
    let mut j: usize = 0;
    while j < m
        invariant
            j <= m,
            m == needle@.len(),
            nn == hay@.len(),
            i + m <= nn,
            forall|x: int| 0 <= x < j ==> #[trigger] hay@[i + x] == needle@[x],
        decreases m - j,
    {
        if hay[i + j] != needle[j] {
            proof {
                assert(hay@.subrange(i as int, i as int + needle@.len() as int)[j as int]
                    == hay@[i + j]);
            }
            return false;
        }
        j = j + 1;
    }
    proof {
        let sub = hay@.subrange(i as int, i as int + needle@.len() as int);
        assert forall|k: int| 0 <= k < sub.len() implies sub[k] == needle@[k] by {
            assert(sub[k] == hay@[i + k]);
        }
        assert(sub =~= needle@);
    }
    true
}

/// Search `hay` for `needle`.
pub fn contains_sub(hay: &[u8], needle: &[u8]) -> (res: bool)
    ensures
        res == spec_contains_sub(hay@, needle@),
{
    let n = hay.len();
    let m = needle.len();
    if m > n {
        proof {
            assert(!spec_contains_sub(hay@, needle@));
        }
        return false;
    }
    if m == 0 {
        proof {
            assert(hay@.subrange(0, 0 + needle@.len() as int) =~= needle@);
        }
        return true;
    }
    let mut i: usize = 0;
    while i <= n - m
        invariant
            m <= n,
            n == hay@.len(),
            m == needle@.len(),
            0 < m,
            i <= n - m + 1,
            forall|x: int|
                0 <= x < i ==> #[trigger] hay@.subrange(x, x + needle@.len() as int) != needle@,
        decreases n + 1 - i,
    {
        if matches_at(hay, needle, i) {
            return true;
        }
        i = i + 1;
    }
    proof {
        assert forall|x: int|
            !(0 <= x && x + needle@.len() <= hay@.len() && #[trigger] hay@.subrange(
                x,
                x + needle@.len() as int,
            ) == needle@) by {
            if 0 <= x && x + needle@.len() <= hay@.len() {
                assert(x < i);
            }
        }
    }
    false
}

} // verus!
