//! Derived-value extraction: find the first line of a step's captured text
//! that contains every required substring, and return it trimmed.

use vstd::prelude::*;
use vstd::string::StrSliceExecFns;

use crate::text::{seq_contains, str_to_chars, strings_view};

verus! {

/// The characters removed from the ends of a matching line: the Unicode
/// White_Space set, as `str::trim` removes it.
pub open spec fn is_blank(c: char) -> bool {
    ||| c == ' ' || c == '\t' || c == '\n' || c == '\r' || c == '\u{b}' || c == '\u{c}'
    ||| c == '\u{85}' || c == '\u{a0}' || c == '\u{1680}'
    ||| '\u{2000}' as u32 <= c as u32 && c as u32 <= '\u{200a}' as u32
    ||| c == '\u{2028}' || c == '\u{2029}' || c == '\u{202f}' || c == '\u{205f}'
    ||| c == '\u{3000}'
}

/// `s` with leading and trailing blank characters removed.
pub open spec fn trim_spec(s: Seq<char>) -> Seq<char>
    decreases s.len(),
{
    if s.len() == 0 {
        s
    } else if is_blank(s[0]) {
        trim_spec(s.drop_first())
    } else if is_blank(s.last()) {
        trim_spec(s.drop_last())
    } else {
        s
    }
}

/// The characters from `a` (inclusive) to `b` (exclusive) form one line of
/// `s`: a maximal run of characters without a line break.
pub open spec fn is_line_at(s: Seq<char>, a: int, b: int) -> bool {
    &&& 0 <= a <= b <= s.len()
    &&& (a == 0 || s[a - 1] == '\n')
    &&& (b == s.len() || s[b] == '\n')
    &&& forall|k: int| a <= k < b ==> s[k] != '\n'
}

/// Every required substring occurs in `line`.
pub open spec fn contains_all(line: Seq<char>, reqs: Seq<Seq<char>>) -> bool {
    forall|j: int| 0 <= j < reqs.len() ==> seq_contains(line, #[trigger] reqs[j])
}

/// The line of `s` from `a` to `b` contains every required substring.
pub open spec fn line_matches(s: Seq<char>, reqs: Seq<Seq<char>>, a: int, b: int) -> bool {
    is_line_at(s, a, b) && contains_all(s.subrange(a, b), reqs)
}

/// Some line of `s` contains every required substring.
pub open spec fn some_line_matches(s: Seq<char>, reqs: Seq<Seq<char>>) -> bool {
    exists|a: int, b: int| #[trigger] line_matches(s, reqs, a, b)
}

/// `out` is the first matching line of `s` in document order, trimmed.
pub open spec fn extract_ok(s: Seq<char>, reqs: Seq<Seq<char>>, out: Seq<char>) -> bool {
    exists|a: int, b: int|
        {
            &&& #[trigger] line_matches(s, reqs, a, b)
            &&& out == trim_spec(s.subrange(a, b))
            &&& forall|a2: int, b2: int| #[trigger] line_matches(s, reqs, a2, b2) ==> a <= a2
        }
}

/// No line qualified; carries the searched substrings for diagnostics.
#[derive(Debug)]
pub struct ExtractionFailure {
    pub required: Vec<String>,
}

/// A line has exactly one end.
proof fn lemma_line_end_unique(s: Seq<char>, a: int, b1: int, b2: int)
    requires
        is_line_at(s, a, b1),
        is_line_at(s, a, b2),
    ensures
        b1 == b2,
{
    if b1 < b2 {
        assert(s[b1] == '\n');
        assert(s[b1] != '\n');
    }
    if b2 < b1 {
        assert(s[b2] == '\n');
        assert(s[b2] != '\n');
    }
}

/// A sequence of blanks trims to nothing.
proof fn lemma_trim_all_blank(s: Seq<char>)
    requires
        forall|i: int| 0 <= i < s.len() ==> is_blank(#[trigger] s[i]),
    ensures
        trim_spec(s) =~= Seq::<char>::empty(),
    decreases s.len(),
{
    if s.len() > 0 {
        lemma_trim_all_blank(s.drop_first());
    }
}

/// Trimming keeps exactly the characters between the first and last
/// non-blank positions.
proof fn lemma_trim_subrange(s: Seq<char>, a: int, b: int)
    requires
        0 <= a < b <= s.len(),
        forall|i: int| 0 <= i < a ==> is_blank(#[trigger] s[i]),
        forall|i: int| b <= i < s.len() ==> is_blank(#[trigger] s[i]),
        !is_blank(s[a]),
        !is_blank(s[b - 1]),
    ensures
        trim_spec(s) == s.subrange(a, b),
    decreases s.len(),
{
    if a > 0 {
        assert(is_blank(s[0]));
        lemma_trim_subrange(s.drop_first(), a - 1, b - 1);
        assert(s.drop_first().subrange(a - 1, b - 1) =~= s.subrange(a, b));
    } else {
        assert(!is_blank(s[0]));
        if b < s.len() {
            assert(is_blank(s.last()));
            lemma_trim_subrange(s.drop_last(), a, b);
            assert(s.drop_last().subrange(a, b) =~= s.subrange(a, b));
        } else {
            assert(!is_blank(s.last()));
            assert(s.subrange(0, s.len() as int) =~= s);
        }
    }
}

/// Splits `text` into lines in original order and returns the first line
/// (top to bottom) that contains all of `required`, with surrounding blanks
/// trimmed. If no line qualifies, fails carrying the searched substrings.
pub fn extract(text: &str, required: &Vec<String>) -> (r: Result<String, ExtractionFailure>)
    ensures
        match r {
            Ok(line) => extract_ok(text@, strings_view(required@), line@),
            Err(failure) => {
                &&& !some_line_matches(text@, strings_view(required@))
                &&& strings_view(failure.required@) == strings_view(required@)
            },
        },
{
    let ghost rq = strings_view(required@);
    let chars = str_to_chars(text);
    let n = chars.len();

    // The required substrings as character vectors, for scanning.
    let mut reqs: Vec<Vec<char>> = Vec::new();
    let mut j: usize = 0;
    while j < required.len()
        invariant
            j <= required@.len(),
            reqs@.len() == j,
            forall|k: int| 0 <= k < j ==> #[trigger] reqs@[k]@ == strings_view(required@)[k],
        decreases required@.len() - j,
    {
        reqs.push(str_to_chars(required[j].as_str()));
        j = j + 1;
    }

    let mut start: usize = 0;
    while start <= n
        invariant
            n == chars@.len(),
            chars@ == text@,
            rq == strings_view(required@),
            reqs@.len() == rq.len(),
            forall|k: int| 0 <= k < rq.len() ==> #[trigger] reqs@[k]@ == rq[k],
            start <= n,
            start == 0 || chars@[start as int - 1] == '\n',
            forall|a: int, b: int| #[trigger] line_matches(text@, rq, a, b) ==> a >= start,
        decreases n + 1 - start,
    {
        // Find the end of the current line.
        let mut end: usize = start;
        while end < n && chars[end] != '\n'
            invariant
                start <= end <= n,
                n == chars@.len(),
                forall|k: int| start <= k < end ==> chars@[k] != '\n',
            decreases n - end,
        {
            end = end + 1;
        }
        proof {
            assert(is_line_at(text@, start as int, end as int));
        }

        // Check every required substring against this line.
        let mut all = true;
        let mut k: usize = 0;
        while k < reqs.len()
            invariant
                k <= reqs@.len(),
                reqs@.len() == rq.len(),
                forall|m: int| 0 <= m < rq.len() ==> #[trigger] reqs@[m]@ == rq[m],
                start <= end <= n,
                n == chars@.len(),
                chars@ == text@,
                all ==> forall|m: int|
                    0 <= m < k ==> seq_contains(
                        text@.subrange(start as int, end as int),
                        #[trigger] rq[m],
                    ),
                !all ==> !contains_all(text@.subrange(start as int, end as int), rq),
            decreases reqs@.len() - k,
        {
            if !crate::text::segment_contains(&chars, start, end, &reqs[k]) {
                all = false;
                k = reqs.len();
            } else {
                k = k + 1;
            }
        }

        if all {
            proof {
                assert(contains_all(text@.subrange(start as int, end as int), rq));
                assert(line_matches(text@, rq, start as int, end as int));
            }
            // Trim the matching line and return it.
            let mut ts: usize = start;
            while ts < end && is_blank_exec(chars[ts])
                invariant
                    start <= ts <= end <= n,
                    n == chars@.len(),
                    forall|i: int| start <= i < ts ==> is_blank(#[trigger] chars@[i]),
                decreases end - ts,
            {
                ts = ts + 1;
            }
            if ts == end {
                proof {
                    let line = text@.subrange(start as int, end as int);
                    assert forall|i: int| 0 <= i < line.len() implies is_blank(
                        #[trigger] line[i],
                    ) by {
                        assert(line[i] == text@[start + i]);
                    }
                    lemma_trim_all_blank(line);
                }
                return Ok(String::new());
            }
            let mut te: usize = end;
            while te > ts && is_blank_exec(chars[te - 1])
                invariant
                    ts <= te <= end <= n,
                    n == chars@.len(),
                    ts < end,
                    !is_blank(chars@[ts as int]),
                    forall|i: int| te <= i < end ==> is_blank(#[trigger] chars@[i]),
                decreases te,
            {
                te = te - 1;
            }
            proof {
                if te == ts {
                    assert(is_blank(chars@[ts as int]));
                }
                assert(te > ts);
                assert(!is_blank(chars@[te - 1]));
            }
            proof {
                let line = text@.subrange(start as int, end as int);
                let la = ts - start;
                let lb = te - start;
                assert(line[la as int] == text@[ts as int]);
                assert(line[lb - 1] == text@[te - 1]);
                assert(!is_blank(line[la as int]));
                assert(!is_blank(line[lb - 1]));
                assert forall|i: int| 0 <= i < la implies is_blank(#[trigger] line[i]) by {
                    assert(line[i] == text@[start + i]);
                }
                assert forall|i: int| lb <= i < line.len() implies is_blank(
                    #[trigger] line[i],
                ) by {
                    assert(line[i] == text@[start + i]);
                }
                lemma_trim_subrange(line, la as int, lb as int);
                assert(line.subrange(la as int, lb as int) =~= text@.subrange(
                    ts as int,
                    te as int,
                ));
            }
            let trimmed = text.substring_char(ts, te);
            return Ok(trimmed.to_owned());
        }

        // This line does not qualify; no line starting at or before it does.
        proof {
            assert forall|a: int, b: int| #[trigger] line_matches(text@, rq, a, b) implies a >= end
                + 1 by {
                assert(a >= start);
                if a <= end {
                    if a > start {
                        assert(text@[a - 1] == '\n');
                        assert(a - 1 < end);
                        assert(text@[a - 1] != '\n');
                    }
                    assert(a == start);
                    lemma_line_end_unique(text@, start as int, b, end as int);
                    assert(!contains_all(text@.subrange(start as int, end as int), rq));
                }
            }
        }
        if end == n {
            // Every line has been scanned and none matched: lines start at or
            // after `start`, and a line cannot begin past the end of the text.
            proof {
                assert forall|a: int, b: int| !#[trigger] line_matches(text@, rq, a, b) by {
                    if line_matches(text@, rq, a, b) {
                        assert(a >= n + 1);
                        assert(a <= text@.len());
                    }
                }
            }
            return Err(ExtractionFailure { required: clone_strings(required) });
        }
        start = end + 1;
    }
    // Never reached: the scan above returns from within the loop.
    proof {
        assert(false);
    }
    Err(ExtractionFailure { required: clone_strings(required) })
}

/// Executable counterpart of [`is_blank`].
pub fn is_blank_exec(c: char) -> (r: bool)
    ensures
        r == is_blank(c),
{
    (c == ' ' || c == '\t' || c == '\n' || c == '\r' || c == '\u{b}' || c == '\u{c}') || (c
        == '\u{85}' || c == '\u{a0}' || c == '\u{1680}') || ('\u{2000}' as u32 <= c as u32 && c
        as u32 <= '\u{200a}' as u32) || (c == '\u{2028}' || c == '\u{2029}' || c == '\u{202f}' || c
        == '\u{205f}') || c == '\u{3000}'
}

/// A copy of a list of strings with the same character contents.
pub fn clone_strings(v: &Vec<String>) -> (r: Vec<String>)
    ensures
        strings_view(r@) == strings_view(v@),
        r@.len() == v@.len(),
{
    let mut r: Vec<String> = Vec::new();
    let mut i: usize = 0;
    while i < v.len()
        invariant
            i <= v@.len(),
            r@.len() == i,
            forall|j: int| 0 <= j < i ==> #[trigger] r@[j]@ == v@[j]@,
        decreases v@.len() - i,
    {
        r.push(v[i].clone());
        i = i + 1;
    }
    proof {
        assert(strings_view(r@) =~= strings_view(v@));
    }
    r
}

} // verus!
