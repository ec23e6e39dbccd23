//! The result harvester: decodes the external crawler's line-delimited
//! per-URL records and decides which documents to persist and which
//! failures to log.
//!
//! A record line is a flat object of the form
//! `{"url":"<url>","status":<digits>}` or
//! `{"url":"<url>","text":"<text>","status":<digits>}`, where the two
//! quoted fields contain neither `"` nor `\`. Any other line is a decode
//! failure: it is logged with its position and skipped, never fatal.

use vstd::prelude::*;

use crate::interleave::{opt_view, str_views};
use crate::planner::spec_parse_u64;

verus! {

/// One successfully decoded per-URL record.
pub struct CrawlRecord {
    pub url: String,
    pub text: Option<String>,
    pub status: u64,
}

/// A document to persist: the record's zero-based position within the
/// chunk names its output file, the text is its contents.
pub struct HarvestedDoc {
    pub position: u64,
    pub text: String,
}

/// A recoverable harvesting failure, identifying the chunk and, for a
/// decode failure, the offending record's position.
#[derive(PartialEq, Eq, Structural, Clone, Copy, Debug)]
pub enum HarvestFailure {
    NoResults { chunk: u64 },
    DecodeFailure { chunk: u64, position: u64 },
}

/// Everything harvesting one chunk decides: the documents to persist
/// and the failures to append to the log.
pub struct HarvestOutcome {
    pub docs: Vec<HarvestedDoc>,
    pub failures: Vec<HarvestFailure>,
}

/// Position of the first `c` in `s`, or `s.len()` when absent.
pub open spec fn first_occurrence(s: Seq<char>, c: char) -> int
    decreases s.len(),
{
    if s.len() == 0 {
        0
    } else if s.first() == c {
        0
    } else {
        1 + first_occurrence(s.drop_first(), c)
    }
}

pub proof fn lemma_first_occurrence_unique(s: Seq<char>, c: char, r: int)
    requires
        0 <= r <= s.len(),
        r < s.len() ==> s[r] == c,
        forall|j: int| 0 <= j < r ==> s[j] != c,
    ensures
        r == first_occurrence(s, c),
    decreases s.len(),
{
    if s.len() == 0 {
    } else if s.first() == c {
        assert(r == 0) by {
            if r > 0 {
                assert(s[0] != c);
            }
        }
    } else {
        assert(r >= 1) by {
            if r == 0 {
                assert(s[0] == c);
            }
        }
        lemma_first_occurrence_unique(s.drop_first(), c, r - 1);
        assert forall|j: int| 0 <= j < r - 1 implies s.drop_first()[j] != c by {
            assert(s.drop_first()[j] == s[j + 1]);
        }
        assert(r - 1 < s.drop_first().len() ==> s.drop_first()[r - 1] == c);
    }
}

/// A quoted field's body: no closing quote, no escape character.
pub open spec fn field_chars_ok(u: Seq<char>) -> bool {
    forall|i: int| 0 <= i < u.len() ==> u[i] != '\\'
}

/// The status suffix of a record: `,"status":` then digits then a
/// closing brace ending the line.
pub open spec fn spec_status_tail(r: Seq<char>) -> Option<u64> {
    if r.len() >= 11 && r.take(10) == ",\"status\":"@ && r.last() == '}' {
        spec_parse_u64(r.subrange(10, r.len() - 1))
    } else {
        None
    }
}

/// What decoding a record line yields: the url, the optional text, and
/// the status code, or nothing when the line does not fit the record
/// grammar.
pub open spec fn spec_decode(s: Seq<char>) -> Option<(Seq<char>, Option<Seq<char>>, u64)> {
    if s.len() < 8 || s.take(8) != "{\"url\":\""@ {
        None
    } else {
        let rest = s.skip(8);
        let q = first_occurrence(rest, '"');
        if q >= rest.len() || !field_chars_ok(rest.take(q)) {
            None
        } else {
            let u = rest.take(q);
            let rest2 = rest.skip(q + 1);
            if rest2.len() >= 9 && rest2.take(9) == ",\"text\":\""@ {
                let rest3 = rest2.skip(9);
                let q2 = first_occurrence(rest3, '"');
                if q2 >= rest3.len() || !field_chars_ok(rest3.take(q2)) {
                    None
                } else {
                    let t = rest3.take(q2);
                    match spec_status_tail(rest3.skip(q2 + 1)) {
                        Some(v) => Some((u, Some(t), v)),
                        None => None,
                    }
                }
            } else {
                match spec_status_tail(rest2) {
                    Some(v) => Some((u, None, v)),
                    None => None,
                }
            }
        }
    }
}

/// Compares `s[at .. at+pat.len()]` with a pattern.
fn matches_at(s: &str, at: usize, pat: &str) -> (r: bool)
    requires
        at <= s@.len(),
        at + pat@.len() <= s@.len(),
    ensures
        r == (s@.subrange(at as int, at + pat@.len()) == pat@),
{
    let n_s = s.unicode_len();
    let m = pat.unicode_len();
    let mut j: usize = 0;
    while j < m
        invariant
            n_s == s@.len(),
            m == pat@.len(),
            at + m <= s@.len(),
            0 <= j <= m,
            forall|t: int| 0 <= t < j ==> s@[at + t] == pat@[t],
        decreases m - j,
    {
        if s.get_char(at + j) != pat.get_char(j) {
            proof {
                assert(s@.subrange(at as int, at + pat@.len())[j as int] == s@[at + j]);
            }
            return false;
        }
        j += 1;
    }
    proof {
        assert(s@.subrange(at as int, at + pat@.len()) =~= pat@);
    }
    true
}

/// Scans for the closing quote of a field starting at `from`; yields
/// its index if found and whether the body is escape-free.
fn scan_field(s: &str, from: usize) -> (r: Option<(usize, bool)>)
    requires
        from <= s@.len(),
    ensures
        match r {
            Some((q, ok)) => {
                &&& from <= q < s@.len()
                &&& s@[q as int] == '"'
                &&& (forall|j: int| from <= j < q ==> s@[j] != '"')
                &&& ok == field_chars_ok(s@.subrange(from as int, q as int))
            },
            None => forall|j: int| from <= j < s@.len() ==> s@[j] != '"',
        },
{
    let n = s.unicode_len();
    let mut i: usize = from;
    let mut clean = true;
    while i < n
        invariant
            n == s@.len(),
            from <= i <= n,
            forall|j: int| from <= j < i ==> s@[j] != '"',
            clean == (forall|j: int| from <= j < i ==> s@[j] != '\\'),
        decreases n - i,
    {
        let c = s.get_char(i);
        if c == '"' {
            proof {
                assert forall|j: int|
                    0 <= j < s@.subrange(from as int, i as int).len() implies s@.subrange(
                    from as int,
                    i as int,
                )[j] == s@[from + j] by {}
                if clean {
                    assert(field_chars_ok(s@.subrange(from as int, i as int)));
                } else {
                    let w = choose|j: int| from <= j < i && s@[j] == '\\';
                    assert(s@.subrange(from as int, i as int)[w - from] == s@[w]);
                    assert(!field_chars_ok(s@.subrange(from as int, i as int)));
                }
            }
            return Some((i, clean));
        }
        if c == '\\' {
            clean = false;
        }
        i += 1;
    }
    None
}

/// Decodes one record line; exactly the lines fitting the record
/// grammar decode, to exactly the fields they spell.
pub fn decode_record(line: &str) -> (r: Option<CrawlRecord>)
    ensures
        r is Some <==> spec_decode(line@) is Some,
        r matches Some(rec) ==> spec_decode(line@) == Some(
            (rec.url@, opt_view(rec.text), rec.status),
        ),
{
    let n = line.unicode_len();
    proof {
        reveal_strlit("{\"url\":\"");
        reveal_strlit(",\"text\":\"");
    }
    if n < 8 {
        return None;
    }
    if !matches_at(line, 0, "{\"url\":\"") {
        proof {
            reveal_strlit("{\"url\":\"");
            assert(line@.subrange(0, 8) =~= line@.take(8));
        }
        return None;
    }
    proof {
        reveal_strlit("{\"url\":\"");
        assert(line@.subrange(0, 8) =~= line@.take(8));
    }
    let ghost rest = line@.skip(8);
    let found = scan_field(line, 8);
    let (q_abs, url_clean) = match found {
        Some(p) => p,
        None => {
            proof {
                lemma_first_occurrence_unique(rest, '"', rest.len() as int);
                assert forall|j: int| 0 <= j < rest.len() implies rest[j] != '"' by {
                    assert(rest[j] == line@[j + 8]);
                }
            }
            return None;
        },
    };
    proof {
        assert forall|j: int| 0 <= j < (q_abs - 8) implies rest[j] != '"' by {
            assert(rest[j] == line@[j + 8]);
        }
        assert(rest[q_abs - 8] == line@[q_abs as int]);
        lemma_first_occurrence_unique(rest, '"', q_abs - 8);
        assert(rest.take(q_abs - 8) =~= line@.subrange(8, q_abs as int));
    }
    if !url_clean {
        return None;
    }
    let url = String::from_str(line.substring_char(8, q_abs));
    let ghost rest2 = rest.skip(q_abs - 8 + 1);
    proof {
        assert(rest2 =~= line@.skip(q_abs as int + 1));
    }
    let after_url = q_abs + 1;
    let has_text = n - after_url >= 9 && matches_at(line, after_url, ",\"text\":\"");
    proof {
        reveal_strlit(",\"text\":\"");
        if n - after_url >= 9 {
            assert(line@.subrange(after_url as int, after_url as int + 9) =~= rest2.take(9));
        }
    }
    if has_text {
        let text_start = after_url + 9;
        let ghost rest3 = rest2.skip(9);
        proof {
            assert(rest3 =~= line@.skip(text_start as int));
        }
        let found2 = scan_field(line, text_start);
        let (q2_abs, text_clean) = match found2 {
            Some(p) => p,
            None => {
                proof {
                    lemma_first_occurrence_unique(rest3, '"', rest3.len() as int);
                    assert forall|j: int| 0 <= j < rest3.len() implies rest3[j] != '"' by {
                        assert(rest3[j] == line@[j + text_start]);
                    }
                }
                return None;
            },
        };
        proof {
            assert forall|j: int| 0 <= j < (q2_abs - text_start) implies rest3[j] != '"' by {
                assert(rest3[j] == line@[j + text_start]);
            }
            assert(rest3[q2_abs - text_start] == line@[q2_abs as int]);
            lemma_first_occurrence_unique(rest3, '"', q2_abs - text_start);
            assert(rest3.take(q2_abs - text_start) =~= line@.subrange(
                text_start as int,
                q2_abs as int,
            ));
        }
        if !text_clean {
            return None;
        }
        let text = String::from_str(line.substring_char(text_start, q2_abs));
        let ghost rest4 = rest3.skip(q2_abs - text_start + 1);
        proof {
            assert(rest4 =~= line@.skip(q2_abs as int + 1));
        }
        match status_tail(line, q2_abs + 1) {
            Some(v) => Some(CrawlRecord { url, text: Some(text), status: v }),
            None => None,
        }
    } else {
        match status_tail(line, after_url) {
            Some(v) => Some(CrawlRecord { url, text: None, status: v }),
            None => None,
        }
    }
}

/// Parses the `,"status":<digits>}` suffix beginning at `from`.
fn status_tail(line: &str, from: usize) -> (r: Option<u64>)
    requires
        from <= line@.len(),
    ensures
        r == spec_status_tail(line@.skip(from as int)),
{
    let ghost tail = line@.skip(from as int);
    let n = line.unicode_len();
    proof {
        reveal_strlit(",\"status\":");
    }
    if n - from < 11 {
        return None;
    }
    if !matches_at(line, from, ",\"status\":") {
        proof {
            reveal_strlit(",\"status\":");
            assert(line@.subrange(from as int, from as int + 10) =~= tail.take(10));
        }
        return None;
    }
    proof {
        reveal_strlit(",\"status\":");
        assert(line@.subrange(from as int, from as int + 10) =~= tail.take(10));
    }
    if line.get_char(n - 1) != '}' {
        proof {
            assert(tail.last() == line@[n as int - 1]);
        }
        return None;
    }
    proof {
        assert(tail.last() == line@[n as int - 1]);
    }
    let digits = line.substring_char(from + 10, n - 1);
    proof {
        assert(digits@ =~= tail.subrange(10, tail.len() - 1));
    }
    crate::planner::parse_u64_digits(digits)
}

/// The record lines of a result file: everything after the header line,
/// blank lines dropped, order kept.
pub open spec fn spec_record_lines(lines: Seq<Seq<char>>) -> Seq<Seq<char>> {
    if lines.len() == 0 {
        Seq::empty()
    } else {
        nonempty_of(lines.skip(1))
    }
}

/// The nonempty lines, in order.
pub open spec fn nonempty_of(ls: Seq<Seq<char>>) -> Seq<Seq<char>>
    decreases ls.len(),
{
    if ls.len() == 0 {
        Seq::empty()
    } else {
        let rest = nonempty_of(ls.drop_last());
        if ls.last().len() > 0 {
            rest.push(ls.last())
        } else {
            rest
        }
    }
}

/// The documents a chunk's record lines yield: one per decoded record
/// that carries text, named by the record's zero-based position.
pub open spec fn spec_docs(rs: Seq<Seq<char>>) -> Seq<(int, Seq<char>)>
    decreases rs.len(),
{
    if rs.len() == 0 {
        Seq::empty()
    } else {
        let pre = spec_docs(rs.drop_last());
        match spec_decode(rs.last()) {
            Some(rec) => match rec.1 {
                Some(t) => pre.push((rs.len() - 1, t)),
                None => pre,
            },
            None => pre,
        }
    }
}

/// The decode failures a chunk's record lines yield, one per
/// undecodable record, in order.
pub open spec fn spec_decode_failures(rs: Seq<Seq<char>>, chunk: u64) -> Seq<HarvestFailure>
    decreases rs.len(),
{
    if rs.len() == 0 {
        Seq::empty()
    } else {
        let pre = spec_decode_failures(rs.drop_last(), chunk);
        if spec_decode(rs.last()) is None {
            pre.push(HarvestFailure::DecodeFailure { chunk, position: (rs.len() - 1) as u64 })
        } else {
            pre
        }
    }
}

pub open spec fn doc_view(d: HarvestedDoc) -> (int, Seq<char>) {
    (d.position as int, d.text@)
}

pub open spec fn doc_views(ds: Seq<HarvestedDoc>) -> Seq<(int, Seq<char>)> {
    ds.map_values(|d: HarvestedDoc| doc_view(d))
}

/// Harvests one chunk's result lines: the header line is skipped, each
/// nonempty record line either yields a document (when it decodes and
/// carries text), nothing (when it decodes without text), or one decode
/// failure; a missing result file yields a lone no-results failure.
pub fn harvest_chunk(chunk: u64, lines: Option<&Vec<String>>) -> (r: HarvestOutcome)
    requires
        (match lines {
            Some(ls) => ls@.len() <= u64::MAX,
            None => true,
        }),
    ensures
        (match lines {
            None => r.docs@.len() == 0 && r.failures@ == seq![
                HarvestFailure::NoResults { chunk },
            ],
            Some(ls) => {
                &&& doc_views(r.docs@) == spec_docs(spec_record_lines(str_views(ls@)))
                &&& r.failures@ == spec_decode_failures(spec_record_lines(str_views(ls@)), chunk)
            },
        }),
{
    let ls = match lines {
        None => {
            let mut failures: Vec<HarvestFailure> = Vec::new();
            failures.push(HarvestFailure::NoResults { chunk });
            proof {
                assert(failures@ =~= seq![HarvestFailure::NoResults { chunk }]);
            }
            return HarvestOutcome { docs: Vec::new(), failures };
        },
        Some(ls) => ls,
    };
    let ghost lv = str_views(ls@);
    let mut records: Vec<String> = Vec::new();
    let mut i: usize = 1;
    proof {
        assert(lv.skip(1).take(0) =~= Seq::<Seq<char>>::empty());
        if ls@.len() >= 1 {
            assert(str_views(records@) =~= nonempty_of(lv.skip(1).take(0)));
        }
    }
    while i < ls.len()
        invariant
            lv == str_views(ls@),
            lv.len() == ls@.len(),
            1 <= i <= ls@.len() || (ls@.len() < 1 && i == 1),
            records@.len() < i,
            i <= ls@.len() ==> str_views(records@) == nonempty_of(lv.skip(1).take(i - 1)),
        decreases ls@.len() - i,
    {
        proof {
            assert(lv.skip(1).take(i as int).drop_last() =~= lv.skip(1).take(i - 1));
            assert(lv.skip(1).take(i as int).last() == lv.skip(1)[i - 1]);
            assert(lv.skip(1)[i - 1] == lv[i as int]);
            assert(lv[i as int] == ls@[i as int]@);
        }
        if !ls[i].as_str().is_empty() {
            let u = ls[i].clone();
            records.push(u);
            proof {
                assert(str_views(records@) =~= str_views(records@.drop_last()).push(
                    records@.last()@,
                ));
            }
        }
        i += 1;
    }
    proof {
        if ls@.len() >= 1 {
            assert(lv.skip(1).take(ls@.len() - 1) =~= lv.skip(1));
        } else {
            assert(str_views(records@) =~= Seq::<Seq<char>>::empty());
        }
        assert(str_views(records@) == spec_record_lines(lv));
    }
    let ghost rv = str_views(records@);
    let mut docs: Vec<HarvestedDoc> = Vec::new();
    let mut failures: Vec<HarvestFailure> = Vec::new();
    let mut p: usize = 0;
    while p < records.len()
        invariant
            rv == str_views(records@),
            rv.len() == records@.len(),
            records@.len() < u64::MAX,
            0 <= p <= records@.len(),
            doc_views(docs@) == spec_docs(rv.take(p as int)),
            failures@ == spec_decode_failures(rv.take(p as int), chunk),
        decreases records@.len() - p,
    {
        proof {
            assert(rv.take(p as int + 1).drop_last() =~= rv.take(p as int));
            assert(rv.take(p as int + 1).last() == rv[p as int]);
            assert(rv[p as int] == records@[p as int]@);
        }
        match decode_record(records[p].as_str()) {
            Some(rec) => {
                match rec.text {
                    Some(t) => {
                        docs.push(HarvestedDoc { position: p as u64, text: t });
                        proof {
                            assert(doc_views(docs@) =~= doc_views(docs@.drop_last()).push(
                                doc_view(docs@.last()),
                            ));
                        }
                    },
                    None => {},
                }
            },
            None => {
                failures.push(
                    HarvestFailure::DecodeFailure { chunk, position: p as u64 },
                );
                proof {
                    assert(failures@ =~= failures@.drop_last().push(failures@.last()));
                }
            },
        }
        p += 1;
    }
    proof {
        assert(rv.take(records@.len() as int) =~= rv);
    }
    HarvestOutcome { docs, failures }
}

} // verus!
