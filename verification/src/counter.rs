//! The document counter: counts, in a collection's result file, the
//! occurrences of the marker field that signals a record carries
//! extracted text. Directory iteration and file reading are I/O and
//! stay outside the library; this module owns the counting itself.

use vstd::prelude::*;

verus! {

/// Non-overlapping occurrences of `pat` in `s`, scanned left to right.
pub open spec fn spec_count_occurrences(s: Seq<char>, pat: Seq<char>) -> int
    decreases s.len(),
{
    if pat.len() == 0 {
        0int
    } else if s.len() < pat.len() {
        0int
    } else if s.take(pat.len() as int) == pat {
        1 + spec_count_occurrences(s.skip(pat.len() as int), pat)
    } else {
        spec_count_occurrences(s.skip(1), pat)
    }
}

pub proof fn lemma_count_occurrences_bound(s: Seq<char>, pat: Seq<char>)
    ensures
        0 <= spec_count_occurrences(s, pat) <= s.len(),
    decreases s.len(),
{
    if pat.len() == 0 || s.len() < pat.len() {
    } else if s.take(pat.len() as int) == pat {
        lemma_count_occurrences_bound(s.skip(pat.len() as int), pat);
    } else {
        lemma_count_occurrences_bound(s.skip(1), pat);
    }
}

/// Counts the non-overlapping occurrences of `pat` in `s`, left to
/// right.
pub fn count_occurrences(s: &str, pat: &str) -> (n: usize)
    requires
        pat@.len() > 0,
    ensures
        n as int == spec_count_occurrences(s@, pat@),
{
    let total = s.unicode_len();
    let m = pat.unicode_len();
    let mut i: usize = 0;
    let mut acc: usize = 0;
    proof {
        assert(s@.skip(0) =~= s@);
        lemma_count_occurrences_bound(s@, pat@);
    }
    while total - i >= m && i < total
        invariant
            total == s@.len(),
            m == pat@.len(),
            m > 0,
            0 <= i <= total,
            acc <= i,
            spec_count_occurrences(s@, pat@) == acc + spec_count_occurrences(
                s@.skip(i as int),
                pat@,
            ),
        decreases total - i,
    {
        let is_match = matches_here(s, i, pat);
        proof {
            assert(s@.skip(i as int).take(m as int) =~= s@.subrange(i as int, i + m));
        }
        if is_match {
            proof {
                assert(s@.skip(i as int).skip(m as int) =~= s@.skip(i as int + m));
            }
            acc += 1;
            i += m;
        } else {
            proof {
                assert(s@.skip(i as int).skip(1) =~= s@.skip(i as int + 1));
            }
            i += 1;
        }
    }
    proof {
        assert(s@.skip(i as int).len() < m ==> spec_count_occurrences(s@.skip(i as int), pat@)
            == 0);
    }
    acc
}

/// Compares `s[at .. at+pat.len()]` with `pat`.
fn matches_here(s: &str, at: usize, pat: &str) -> (r: bool)
    requires
        at <= s@.len(),
        at + pat@.len() <= s@.len(),
    ensures
        r == (s@.subrange(at as int, at + pat@.len()) == pat@),
{
    let n_s = s.unicode_len();
    let m = pat.unicode_len();
    let mut j: usize = 0;
    while j < m
        invariant
            n_s == s@.len(),
            m == pat@.len(),
            at + m <= s@.len(),
            0 <= j <= m,
            forall|t: int| 0 <= t < j ==> s@[at + t] == pat@[t],
        decreases m - j,
    {
        if s.get_char(at + j) != pat.get_char(j) {
            proof {
                assert(s@.subrange(at as int, at + pat@.len())[j as int] == s@[at + j]);
            }
            return false;
        }
        j += 1;
    }
    proof {
        assert(s@.subrange(at as int, at + pat@.len()) =~= pat@);
    }
    true
}

/// The marker field that flags a record as carrying extracted text.
pub open spec fn text_marker() -> Seq<char> {
    "\"text\":"@
}

/// Counts the documents a collection's result file reports: the
/// occurrences of the has-text marker field in its contents.
pub fn count_text_markers(contents: &str) -> (n: usize)
    ensures
        n as int == spec_count_occurrences(contents@, text_marker()),
{
    proof {
        reveal_strlit("\"text\":");
    }
    count_occurrences(contents, "\"text\":")
}

} // verus!
