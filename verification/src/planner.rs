//! The chunk planner: decides where a restarted run resumes, and slices
//! the master URL stream into fixed-size batches.
//!
//! Resume detection parses chunk-artifact file names (their stem before
//! the first dot must be a decimal chunk index) and skips to just before
//! the highest index found: the run re-produces the last materialized
//! chunk, in case it was cut short, and never reprocesses anything
//! before it.

use vstd::prelude::*;

use crate::interleave::str_views;

verus! {

/// Raw input lines per chunk.
pub const LINES_PER_CHUNK: usize = 2;

/// A decimal digit, as a character.
pub open spec fn is_digit(c: char) -> bool {
    48 <= (c as u32) && (c as u32) <= 57
}

/// The numeric value of a decimal digit character.
pub open spec fn digit_val(c: char) -> int {
    (c as u32) - 48
}

/// The value of a digit string read most-significant first.
pub open spec fn digits_val(s: Seq<char>) -> int
    decreases s.len(),
{
    if s.len() == 0 {
        0int
    } else {
        digits_val(s.drop_last()) * 10 + digit_val(s.last())
    }
}

/// Whether `s` is a nonempty, all-decimal-digit string.
pub open spec fn all_digits(s: Seq<char>) -> bool {
    s.len() > 0 && (forall|i: int| 0 <= i < s.len() ==> is_digit(s[i]))
}

/// What parsing a chunk index yields: the value of a nonempty digit
/// string when it fits in `u64`, nothing otherwise.
pub open spec fn spec_parse_u64(s: Seq<char>) -> Option<u64> {
    if all_digits(s) && digits_val(s) <= u64::MAX {
        Some(digits_val(s) as u64)
    } else {
        None
    }
}

pub proof fn lemma_digits_val_nonneg(s: Seq<char>)
    requires
        forall|i: int| 0 <= i < s.len() ==> is_digit(s[i]),
    ensures
        digits_val(s) >= 0,
    decreases s.len(),
{
    if s.len() > 0 {
        lemma_digits_val_nonneg(s.drop_last());
    }
}

/// Extending a digit string never shrinks its value.
pub proof fn lemma_digits_val_mono(s: Seq<char>, i: int, j: int)
    requires
        0 <= i <= j <= s.len(),
        forall|t: int| 0 <= t < j ==> is_digit(s[t]),
    ensures
        digits_val(s.take(i)) <= digits_val(s.take(j)),
    decreases j - i,
{
    if i < j {
        lemma_digits_val_mono(s, i, j - 1);
        assert(s.take(j).drop_last() =~= s.take(j - 1));
        lemma_digits_val_nonneg(s.take(j - 1));
        assert(digits_val(s.take(j)) == digits_val(s.take(j - 1)) * 10 + digit_val(s[j - 1]));
        assert(digits_val(s.take(j - 1)) * 10 >= digits_val(s.take(j - 1))) by (nonlinear_arith)
            requires
                digits_val(s.take(j - 1)) >= 0,
        ;
    }
}

/// Parses a nonempty decimal digit string as a `u64`; rejects empty
/// strings, non-digit characters, and values past `u64::MAX`.
pub fn parse_u64_digits(s: &str) -> (r: Option<u64>)
    ensures
        r == spec_parse_u64(s@),
{
    let n = s.unicode_len();
    if n == 0 {
        return None;
    }
    let mut i: usize = 0;
    let mut acc: u64 = 0;
    while i < n
        invariant
            n == s@.len(),
            0 < n,
            0 <= i <= n,
            forall|t: int| 0 <= t < i ==> is_digit(s@[t]),
            acc as int == digits_val(s@.take(i as int)),
        decreases n - i,
    {
        let c = s.get_char(i);
        let cv = c as u32;
        if cv < 48 || cv > 57 {
            return None;
        }
        let d: u64 = (cv - 48) as u64;
        proof {
            assert(s@.take(i as int + 1).drop_last() =~= s@.take(i as int));
            assert(s@.take(i as int + 1).last() == s@[i as int]);
        }
        let big = match acc.checked_mul(10) {
            Some(x) => x,
            None => {
                proof {
                    lemma_digits_val_extend_overflow(s@, i as int);
                }
                return None;
            },
        };
        acc = match big.checked_add(d) {
            Some(y) => y,
            None => {
                proof {
                    lemma_digits_val_extend_overflow(s@, i as int);
                }
                return None;
            },
        };
        i += 1;
    }
    proof {
        assert(s@.take(n as int) =~= s@);
    }
    Some(acc)
}

/// If one more digit already pushes the prefix value past `u64::MAX`,
/// the whole string's value is past it too.
pub proof fn lemma_digits_val_extend_overflow(s: Seq<char>, i: int)
    requires
        0 <= i < s.len(),
        forall|t: int| 0 <= t <= i ==> is_digit(s[t]),
        digits_val(s.take(i)) * 10 + digit_val(s[i]) > u64::MAX,
    ensures
        !(all_digits(s) && digits_val(s) <= u64::MAX),
{
    if all_digits(s) {
        assert(s.take(i + 1).drop_last() =~= s.take(i));
        assert(s.take(i + 1).last() == s[i]);
        assert(digits_val(s.take(i + 1)) == digits_val(s.take(i)) * 10 + digit_val(s[i]));
        lemma_digits_val_mono(s, i + 1, s.len() as int);
        assert(s.take(s.len() as int) =~= s);
    }
}

/// Position of the first `.` in a file name, or its length when none.
pub open spec fn first_dot(s: Seq<char>) -> int
    decreases s.len(),
{
    if s.len() == 0 {
        0
    } else if s.first() == '.' {
        0
    } else {
        1 + first_dot(s.drop_first())
    }
}

pub proof fn lemma_first_dot_unique(s: Seq<char>, r: int)
    requires
        0 <= r <= s.len(),
        r < s.len() ==> s[r] == '.',
        forall|j: int| 0 <= j < r ==> s[j] != '.',
    ensures
        r == first_dot(s),
    decreases s.len(),
{
    if s.len() == 0 {
    } else if s.first() == '.' {
        assert(r == 0) by {
            if r > 0 {
                assert(s[0] != '.');
            }
        }
    } else {
        assert(r >= 1) by {
            if r == 0 {
                assert(s[0] == '.');
            }
        }
        lemma_first_dot_unique(s.drop_first(), r - 1);
        assert forall|j: int| 0 <= j < r - 1 implies s.drop_first()[j] != '.' by {
            assert(s.drop_first()[j] == s[j + 1]);
        }
        assert(r - 1 < s.drop_first().len() ==> s.drop_first()[r - 1] == '.');
    }
}

/// The stem of a file name: everything before the first dot.
pub open spec fn stem_of(name: Seq<char>) -> Seq<char> {
    name.take(first_dot(name))
}

/// The chunk index a file name encodes, if its stem parses.
pub open spec fn index_of_name(name: Seq<char>) -> Option<u64> {
    spec_parse_u64(stem_of(name))
}

/// The highest chunk index encoded by any of the artifact file names.
pub open spec fn spec_highest_index(names: Seq<Seq<char>>) -> Option<u64>
    decreases names.len(),
{
    if names.len() == 0 {
        None
    } else {
        let rest = spec_highest_index(names.drop_last());
        match index_of_name(names.last()) {
            Some(v) => match rest {
                Some(m) => if v > m {
                    Some(v)
                } else {
                    Some(m)
                },
                None => Some(v),
            },
            None => rest,
        }
    }
}

/// How many chunks a restarted run skips: an explicit 1-based chunk
/// index wins and skips `explicit - 1`; otherwise the highest index
/// among the artifact names skips `highest - 1`; with neither, the run
/// starts fresh.
pub open spec fn spec_resume_skip(explicit: Option<u64>, names: Seq<Seq<char>>) -> u64 {
    match explicit {
        Some(c) => if c >= 1 {
            (c - 1) as u64
        } else {
            0u64
        },
        None => match spec_highest_index(names) {
            Some(h) => if h >= 1 {
                (h - 1) as u64
            } else {
                0u64
            },
            None => 0u64,
        },
    }
}

/// The stem of a file name, before the first dot, as a slice.
pub fn stem_slice(name: &str) -> (r: &str)
    ensures
        r@ == stem_of(name@),
{
    let n = name.unicode_len();
    let mut i: usize = 0;
    while i < n
        invariant
            n == name@.len(),
            0 <= i <= n,
            forall|j: int| 0 <= j < i ==> name@[j] != '.',
        decreases n - i,
    {
        if name.get_char(i) == '.' {
            proof {
                lemma_first_dot_unique(name@, i as int);
            }
            return name.substring_char(0, i);
        }
        i += 1;
    }
    proof {
        lemma_first_dot_unique(name@, n as int);
    }
    name.substring_char(0, n)
}

/// Computes the resume skip count from the explicit chunk option and the
/// chunk-artifact file names found on disk.
pub fn next_resume_index(explicit: Option<u64>, names: &Vec<String>) -> (r: u64)
    ensures
        r == spec_resume_skip(explicit, str_views(names@)),
{
    match explicit {
        Some(c) => {
            if c >= 1 {
                c - 1
            } else {
                0
            }
        },
        None => {
            let ghost nv = str_views(names@);
            let mut best: Option<u64> = None;
            let mut i: usize = 0;
            while i < names.len()
                invariant
                    nv == str_views(names@),
                    nv.len() == names@.len(),
                    0 <= i <= names@.len(),
                    best == spec_highest_index(nv.take(i as int)),
                decreases names@.len() - i,
            {
                proof {
                    assert(nv.take(i as int + 1).drop_last() =~= nv.take(i as int));
                    assert(nv.take(i as int + 1).last() == nv[i as int]);
                    assert(nv[i as int] == names@[i as int]@);
                }
                let stem = stem_slice(names[i].as_str());
                let parsed = parse_u64_digits(stem);
                best = match (parsed, best) {
                    (Some(v), Some(m)) => if v > m {
                        Some(v)
                    } else {
                        Some(m)
                    },
                    (Some(v), None) => Some(v),
                    (None, b) => b,
                };
                i += 1;
            }
            proof {
                assert(nv.take(names@.len() as int) =~= nv);
            }
            match best {
                Some(h) => {
                    if h >= 1 {
                        h - 1
                    } else {
                        0
                    }
                },
                None => 0,
            }
        },
    }
}

/// The batch starting at line `start`: exactly `size` lines when that
/// many remain, the remaining tail when fewer do, empty at end of input.
pub open spec fn spec_take_chunk(lines: Seq<Seq<char>>, start: int, size: int) -> Seq<Seq<char>> {
    let len = lines.len() as int;
    let lo = if start > len {
        len
    } else {
        start
    };
    let hi = if start + size > len {
        len
    } else {
        start + size
    };
    lines.subrange(lo, hi)
}

/// Reads the next batch of raw lines: `size` lines from `start`, fewer
/// at end of input; an empty result signals completion.
pub fn take_chunk(lines: &Vec<String>, start: usize, size: usize) -> (r: Vec<String>)
    ensures
        str_views(r@) == spec_take_chunk(str_views(lines@), start as int, size as int),
{
    let ghost lv = str_views(lines@);
    let len = lines.len();
    let lo: usize = if start > len {
        len
    } else {
        start
    };
    let hi: usize = if len - lo < size {
        len
    } else {
        lo + size
    };
    let mut out: Vec<String> = Vec::new();
    let mut i: usize = lo;
    proof {
        assert(lv.len() == lines@.len());
    }
    while i < hi
        invariant
            lv == str_views(lines@),
            lv.len() == lines@.len(),
            lo <= i <= hi <= lines@.len(),
            str_views(out@) == lv.subrange(lo as int, i as int),
        decreases hi - i,
    {
        let u = lines[i].clone();
        out.push(u);
        proof {
            assert(str_views(out@) =~= str_views(out@.drop_last()).push(out@.last()@));
            assert(lv.subrange(lo as int, i as int + 1) =~= lv.subrange(lo as int, i as int).push(
                lv[i as int],
            ));
            assert(lv[i as int] == lines@[i as int]@);
        }
        i += 1;
    }
    proof {
        assert(str_views(out@) =~= spec_take_chunk(lv, start as int, size as int));
    }
    out
}

} // verus!
