//! Character-level text utilities shared by the extractor and the validator.

use vstd::prelude::*;
use vstd::string::StrSliceExecFns;

verus! {

/// The name/character-sequence views of a list of strings.
pub open spec fn strings_view(v: Seq<String>) -> Seq<Seq<char>> {
    v.map_values(|s: String| s@)
}

/// Character-for-character string comparison, so that contracts can speak of
/// view equality without relying on derived trait implementations.
pub fn str_equal(a: &str, b: &str) -> (r: bool)
    ensures
        r == (a@ == b@),
{
    let an = a.unicode_len();
    let bn = b.unicode_len();
    if an != bn {
        return false;
    }
    let mut i: usize = 0;
    while i < an
        invariant
            i <= an,
            an == a@.len(),
            an == b@.len(),
            forall|j: int| 0 <= j < i ==> a@[j] == b@[j],
        decreases an - i,
    {
        if a.get_char(i) != b.get_char(i) {
            return false;
        }
        i = i + 1;
    }
    proof {
        assert(a@ =~= b@);
    }
    true
}

/// The characters of `s` as a vector, for random access while scanning.
pub fn str_to_chars(s: &str) -> (v: Vec<char>)
    ensures
        v@ == s@,
{
    let n = s.unicode_len();
    let mut v: Vec<char> = Vec::new();
    let mut i: usize = 0;
    while i < n
        invariant
            i <= n,
            n == s@.len(),
            v@ =~= s@.subrange(0, i as int),
        decreases n - i,
    {
        v.push(s.get_char(i));
        i = i + 1;
    }
    proof {
        assert(v@ =~= s@);
    }
    v
}

/// `needle` occurs in `hay` starting at position `i`.
pub open spec fn contains_at(hay: Seq<char>, needle: Seq<char>, i: int) -> bool {
    &&& 0 <= i
    &&& i + needle.len() <= hay.len()
    &&& forall|k: int| 0 <= k < needle.len() ==> hay[i + k] == needle[k]
}

/// `needle` occurs somewhere in `hay`.
pub open spec fn seq_contains(hay: Seq<char>, needle: Seq<char>) -> bool {
    exists|i: int| contains_at(hay, needle, i)
}

/// `s` begins with the prefix `p`.
pub open spec fn starts_with(s: Seq<char>, p: Seq<char>) -> bool {
    p.len() <= s.len() && forall|k: int| 0 <= k < p.len() ==> s[k] == p[k]
}

/// Whether the characters of `text` from `lo` (inclusive) to `hi` (exclusive)
/// begin with the characters of `p`.
pub fn segment_starts_with(text: &Vec<char>, lo: usize, hi: usize, p: &str) -> (r: bool)
    requires
        lo <= hi <= text@.len(),
    ensures
        r == starts_with(text@.subrange(lo as int, hi as int), p@),
{
    let pn = p.unicode_len();
    if pn > hi - lo {
        return false;
    }
    let mut k: usize = 0;
    while k < pn
        invariant
            k <= pn,
            pn == p@.len(),
            lo <= hi <= text@.len(),
            pn <= hi - lo,
            forall|j: int| 0 <= j < k ==> text@[lo + j] == p@[j],
        decreases pn - k,
    {
        if text[lo + k] != p.get_char(k) {
            proof {
                let seg = text@.subrange(lo as int, hi as int);
                assert(seg[k as int] == text@[lo + k as int]);
            }
            return false;
        }
        k = k + 1;
    }
    proof {
        let seg = text@.subrange(lo as int, hi as int);
        assert forall|j: int| 0 <= j < p@.len() implies seg[j] == p@[j] by {
            assert(seg[j] == text@[lo + j]);
        }
    }
    true
}

/// Whether `needle` occurs in the characters of `text` from `lo` (inclusive)
/// to `hi` (exclusive).
pub fn segment_contains(text: &Vec<char>, lo: usize, hi: usize, needle: &Vec<char>) -> (r: bool)
    requires
        lo <= hi <= text@.len(),
    ensures
        r == seq_contains(text@.subrange(lo as int, hi as int), needle@),
{
    let nn = needle.len();
    let width = hi - lo;
    if nn > width {
        proof {
            let seg = text@.subrange(lo as int, hi as int);
            assert(forall|i: int| !contains_at(seg, needle@, i));
        }
        return false;
    }
    let mut s: usize = 0;
    while s <= width - nn
        invariant
            lo <= hi <= text@.len(),
            nn == needle@.len(),
            width == hi - lo,
            nn <= width,
            s <= width - nn + 1,
            forall|i: int| 0 <= i < s ==> !contains_at(
                text@.subrange(lo as int, hi as int),
                needle@,
                i,
            ),
        decreases width + 1 - nn - s,
    {
        let mut k: usize = 0;
        let mut mismatch = false;
        while k < nn
            invariant
                k <= nn,
                nn == needle@.len(),
                lo <= hi <= text@.len(),
                width == hi - lo,
                s + nn <= width,
                !mismatch ==> forall|j: int| 0 <= j < k ==> text@[lo + s + j] == needle@[j],
                mismatch ==> !contains_at(text@.subrange(lo as int, hi as int), needle@, s as int),
            decreases nn - k,
        {
            if text[lo + s + k] != needle[k] {
                proof {
                    let seg = text@.subrange(lo as int, hi as int);
                    assert(seg[s + k as int] == text@[lo + s + k as int]);
                }
                mismatch = true;
                k = nn;
            } else {
                k = k + 1;
            }
        }
        if !mismatch {
            proof {
                let seg = text@.subrange(lo as int, hi as int);
                assert forall|j: int| 0 <= j < needle@.len() implies seg[s + j] == needle@[j] by {
                    assert(seg[s + j] == text@[lo + s + j]);
                }
                assert(contains_at(seg, needle@, s as int));
            }
            return true;
        }
        s = s + 1;
    }
    proof {
        let seg = text@.subrange(lo as int, hi as int);
        assert forall|i: int| !contains_at(seg, needle@, i) by {
            if contains_at(seg, needle@, i) {
                assert(0 <= i && i + nn <= width);
            }
        }
    }
    false
}

} // verus!
