//! The domain interleaver: groups a batch of URLs by registrable domain
//! and reorders it so URLs sharing a domain land far apart, while
//! single-occurrence domains are spread fairly over the middle of the
//! batch.
//!
//! The pipeline is: filter (drop empty strings, path-relative strings and
//! URLs without a well-formed registrable domain), group into
//! insertion-ordered domain buckets, give every URL an exact rational
//! precedence score, and stable-sort ascending by score.

use vstd::prelude::*;

use crate::score::{
    multi_score, prec_lt, rat_lt, solo_score, spec_multi_score, spec_solo_score, Precedence,
    MAX_BATCH_LEN,
};

verus! {

/// A raw input line together with the registrable domain the external
/// extractor found for it, if any.
pub struct UrlEntry {
    pub url: String,
    pub domain: Option<String>,
}

/// An insertion-ordered group of the batch's URLs sharing one domain.
pub struct DomainBucket {
    pub domain: String,
    pub urls: Vec<String>,
}

/// A URL annotated with its computed precedence score.
pub struct ScoredUrl {
    pub prec: Precedence,
    pub url: String,
}

pub open spec fn opt_view(o: Option<String>) -> Option<Seq<char>> {
    match o {
        Some(s) => Some(s@),
        None => None,
    }
}

pub open spec fn str_views(us: Seq<String>) -> Seq<Seq<char>> {
    us.map_values(|u: String| u@)
}

pub open spec fn entry_view(e: UrlEntry) -> (Seq<char>, Option<Seq<char>>) {
    (e.url@, opt_view(e.domain))
}

pub open spec fn entry_views(es: Seq<UrlEntry>) -> Seq<(Seq<char>, Option<Seq<char>>)> {
    es.map_values(|e: UrlEntry| entry_view(e))
}

pub open spec fn pair_views(qs: Seq<(String, String)>) -> Seq<(Seq<char>, Seq<char>)> {
    qs.map_values(|q: (String, String)| (q.0@, q.1@))
}

pub open spec fn bucket_view(b: DomainBucket) -> (Seq<char>, Seq<Seq<char>>) {
    (b.domain@, str_views(b.urls@))
}

pub open spec fn bucket_views(bs: Seq<DomainBucket>) -> Seq<(Seq<char>, Seq<Seq<char>>)> {
    bs.map_values(|b: DomainBucket| bucket_view(b))
}

pub open spec fn scored_view(x: ScoredUrl) -> ((int, int), Seq<char>) {
    (x.prec.v(), x.url@)
}

pub open spec fn scored_views(xs: Seq<ScoredUrl>) -> Seq<((int, int), Seq<char>)> {
    xs.map_values(|x: ScoredUrl| scored_view(x))
}

/// A character the library accepts inside a registrable domain. A domain
/// carrying whitespace or a path separator marks a malformed host, so the
/// URL it was extracted from is discarded.
pub open spec fn domain_char_ok(c: char) -> bool {
    c != ' ' && c != '\t' && c != '/'
}

/// A well-formed registrable domain: nonempty, no whitespace, no path
/// separator.
pub open spec fn valid_domain(d: Seq<char>) -> bool {
    d.len() > 0 && (forall|i: int| 0 <= i < d.len() ==> domain_char_ok(d[i]))
}

/// Whether a raw input line survives filtering: nonempty, not
/// path-relative, and its registrable domain was extracted and is well
/// formed.
pub open spec fn keep_entry(p: (Seq<char>, Option<Seq<char>>)) -> bool {
    &&& p.0.len() > 0
    &&& p.0[0] != '/'
    &&& match p.1 {
        Some(d) => valid_domain(d),
        None => false,
    }
}

/// The `(domain, url)` pairs that survive filtering, in input order.
pub open spec fn kept_pairs(ps: Seq<(Seq<char>, Option<Seq<char>>)>) -> Seq<
    (Seq<char>, Seq<char>),
>
    decreases ps.len(),
{
    if ps.len() == 0 {
        Seq::empty()
    } else {
        let rest = kept_pairs(ps.drop_last());
        let p = ps.last();
        if keep_entry(p) {
            rest.push((p.1->0, p.0))
        } else {
            rest
        }
    }
}

/// Index of the first bucket owning domain `d`, or `bs.len()` when no
/// bucket does.
pub open spec fn bucket_index_of(bs: Seq<(Seq<char>, Seq<Seq<char>>)>, d: Seq<char>) -> int
    decreases bs.len(),
{
    if bs.len() == 0 {
        0
    } else if bs.first().0 == d {
        0
    } else {
        1 + bucket_index_of(bs.drop_first(), d)
    }
}

pub proof fn lemma_bucket_index_props(bs: Seq<(Seq<char>, Seq<Seq<char>>)>, d: Seq<char>)
    ensures
        0 <= bucket_index_of(bs, d) <= bs.len(),
        bucket_index_of(bs, d) < bs.len() ==> bs[bucket_index_of(bs, d)].0 == d,
        forall|j: int| 0 <= j < bucket_index_of(bs, d) ==> bs[j].0 != d,
    decreases bs.len(),
{
    if bs.len() > 0 && bs.first().0 != d {
        lemma_bucket_index_props(bs.drop_first(), d);
        assert forall|j: int| 0 <= j < bucket_index_of(bs, d) implies bs[j].0 != d by {
            if j > 0 {
                assert(bs[j] == bs.drop_first()[j - 1]);
            }
        }
    }
}

/// Any index with the first-match properties is `bucket_index_of`.
pub proof fn lemma_bucket_index_unique(bs: Seq<(Seq<char>, Seq<Seq<char>>)>, d: Seq<char>, r: int)
    requires
        0 <= r <= bs.len(),
        r < bs.len() ==> bs[r].0 == d,
        forall|j: int| 0 <= j < r ==> bs[j].0 != d,
    ensures
        r == bucket_index_of(bs, d),
    decreases bs.len(),
{
    if bs.len() == 0 {
    } else if bs.first().0 == d {
        assert(r == 0) by {
            if r > 0 {
                assert(bs[0].0 != d);
            }
        }
    } else {
        assert(r >= 1) by {
            if r == 0 {
                assert(bs[0].0 == d);
            }
        }
        lemma_bucket_index_unique(bs.drop_first(), d, r - 1);
        assert forall|j: int| 0 <= j < r - 1 implies bs.drop_first()[j].0 != d by {
            assert(bs.drop_first()[j] == bs[j + 1]);
        }
        assert(r - 1 < bs.drop_first().len() ==> bs.drop_first()[r - 1].0 == d);
    }
}

/// Insertion-ordered domain buckets of the filtered `(domain, url)`
/// pairs: a pair joins the bucket already owning its domain, else opens a
/// new bucket at the end.
pub open spec fn spec_buckets(qs: Seq<(Seq<char>, Seq<char>)>) -> Seq<(Seq<char>, Seq<Seq<char>>)>
    decreases qs.len(),
{
    if qs.len() == 0 {
        Seq::empty()
    } else {
        let bs = spec_buckets(qs.drop_last());
        let q = qs.last();
        let ix = bucket_index_of(bs, q.0);
        if ix < bs.len() {
            bs.update(ix, (q.0, bs[ix].1.push(q.1)))
        } else {
            bs.push((q.0, seq![q.1]))
        }
    }
}

/// Every bucket is nonempty and no larger than the pair list; there are
/// no more buckets than pairs.
pub proof fn lemma_buckets_bounds(qs: Seq<(Seq<char>, Seq<char>)>)
    ensures
        spec_buckets(qs).len() <= qs.len(),
        forall|b: int| 0 <= b < spec_buckets(qs).len() ==> 1 <= #[trigger] spec_buckets(
            qs,
        )[b].1.len() <= qs.len(),
    decreases qs.len(),
{
    if qs.len() > 0 {
        lemma_buckets_bounds(qs.drop_last());
        let bs = spec_buckets(qs.drop_last());
        let q = qs.last();
        let ix = bucket_index_of(bs, q.0);
        lemma_bucket_index_props(bs, q.0);
    }
}

/// String equality, related to the views.
fn str_eq(a: &String, b: &String) -> (r: bool)
    ensures
        r == (a@ == b@),
{
    a.eq(b)
}

/// Whether `d` is a well-formed registrable domain.
pub fn domain_ok(d: &String) -> (r: bool)
    ensures
        r == valid_domain(d@),
{
    let n = d.as_str().unicode_len();
    if n == 0 {
        return false;
    }
    let mut i: usize = 0;
    while i < n
        invariant
            n == d@.len(),
            0 <= i <= n,
            forall|j: int| 0 <= j < i ==> domain_char_ok(d@[j]),
        decreases n - i,
    {
        let c = d.as_str().get_char(i);
        if c == ' ' || c == '\t' || c == '/' {
            return false;
        }
        i += 1;
    }
    true
}

/// Filters a batch down to the `(domain, url)` pairs that survive:
/// nonempty, not path-relative, with a well-formed extracted domain.
pub fn filter_entries(entries: Vec<UrlEntry>) -> (r: Vec<(String, String)>)
    ensures
        pair_views(r@) == kept_pairs(entry_views(entries@)),
        r@.len() <= entries@.len(),
{
    let mut entries = entries;
    let ghost all = entries@;
    let total: usize = entries.len();
    let mut kept: Vec<(String, String)> = Vec::new();
    let mut done: usize = 0;
    while entries.len() > 0
        invariant
            all.len() == total,
            done + entries@.len() == all.len(),
            entries@ == all.skip(done as int),
            pair_views(kept@) == kept_pairs(entry_views(all.take(done as int))),
            kept@.len() <= done,
        decreases entries@.len(),
    {
        let e = entries.remove(0);
        proof {
            assert(all.take(done as int).push(e) =~= all.take(done as int + 1));
            assert(entry_views(all.take(done as int).push(e)) =~= entry_views(
                all.take(done as int),
            ).push(entry_view(e)));
            assert(entry_views(all.take(done as int + 1)).drop_last() =~= entry_views(
                all.take(done as int),
            ));
            assert(all.skip(done as int).remove(0) =~= all.skip(done as int + 1));
        }
        let mut keep = false;
        let url_len = e.url.as_str().unicode_len();
        if url_len > 0 && e.url.as_str().get_char(0) != '/' {
            keep = match &e.domain {
                Some(d) => domain_ok(d),
                None => false,
            };
        }
        if keep {
            let d = match e.domain {
                Some(d) => d,
                None => unreached(),
            };
            kept.push((d, e.url));
            proof {
                assert(pair_views(kept@) =~= pair_views(kept@.drop_last()).push(
                    (kept@.last().0@, kept@.last().1@),
                ));
            }
        }
        done += 1;
    }
    proof {
        assert(all.take(done as int) =~= all);
    }
    kept
}

/// Count of solo buckets: buckets holding exactly one URL.
pub open spec fn solo_count(bs: Seq<(Seq<char>, Seq<Seq<char>>)>) -> int
    decreases bs.len(),
{
    if bs.len() == 0 {
        0int
    } else {
        solo_count(bs.drop_last()) + if bs.last().1.len() == 1 {
            1int
        } else {
            0int
        }
    }
}

pub proof fn lemma_solo_count_bounds(bs: Seq<(Seq<char>, Seq<Seq<char>>)>)
    ensures
        0 <= solo_count(bs) <= bs.len(),
    decreases bs.len(),
{
    if bs.len() > 0 {
        lemma_solo_count_bounds(bs.drop_last());
    }
}

/// `solo_count` splits over a cut of the bucket list.
pub proof fn lemma_solo_count_split(bs: Seq<(Seq<char>, Seq<Seq<char>>)>, i: int)
    requires
        0 <= i <= bs.len(),
    ensures
        solo_count(bs) == solo_count(bs.take(i)) + solo_count(bs.skip(i)),
    decreases bs.len() - i,
{
    if i == bs.len() {
        assert(bs.take(i) =~= bs);
        assert(solo_count(bs.skip(i)) == 0);
    } else {
        lemma_solo_count_split(bs, i + 1);
        assert(bs.take(i + 1).drop_last() =~= bs.take(i));
        assert(bs.take(i + 1).last() == bs[i]);
        let rest = bs.skip(i);
        assert(rest.len() > 0);
        lemma_solo_count_first(rest);
        assert(rest.drop_first() =~= bs.skip(i + 1));
        assert(rest.first() == bs[i]);
    }
}

/// Unrolling `solo_count` from the front.
pub proof fn lemma_solo_count_first(bs: Seq<(Seq<char>, Seq<Seq<char>>)>)
    requires
        bs.len() > 0,
    ensures
        solo_count(bs) == (if bs.first().1.len() == 1 {
            1int
        } else {
            0int
        }) + solo_count(bs.drop_first()),
    decreases bs.len(),
{
    assert(solo_count(bs) == solo_count(bs.drop_last()) + (if bs.last().1.len() == 1 {
        1int
    } else {
        0int
    }));
    if bs.len() == 1 {
        assert(bs.drop_first() =~= Seq::<(Seq<char>, Seq<Seq<char>>)>::empty());
        assert(bs.drop_last() =~= Seq::<(Seq<char>, Seq<Seq<char>>)>::empty());
        assert(solo_count(Seq::<(Seq<char>, Seq<Seq<char>>)>::empty()) == 0);
        assert(bs.first() == bs.last());
    } else {
        lemma_solo_count_first(bs.drop_last());
        assert(bs.drop_last().first() == bs.first());
        assert(bs.drop_first().drop_last() =~= bs.drop_last().drop_first());
        assert(bs.drop_first().last() == bs.last());
        assert(solo_count(bs.drop_first()) == solo_count(bs.drop_first().drop_last()) + (
        if bs.drop_first().last().1.len() == 1 {
            1int
        } else {
            0int
        }));
    }
}

/// Index of the first bucket owning domain `d`, or the bucket count when
/// no bucket does.
pub fn find_bucket(buckets: &Vec<DomainBucket>, d: &String) -> (r: usize)
    ensures
        r as int == bucket_index_of(bucket_views(buckets@), d@),
{
    let ghost bv = bucket_views(buckets@);
    let mut i: usize = 0;
    while i < buckets.len()
        invariant
            bv == bucket_views(buckets@),
            0 <= i <= buckets@.len(),
            bv.len() == buckets@.len(),
            forall|j: int| 0 <= j < i ==> bv[j].0 != d@,
        decreases buckets@.len() - i,
    {
        if str_eq(&buckets[i].domain, d) {
            proof {
                lemma_bucket_index_unique(bv, d@, i as int);
            }
            return i;
        }
        i += 1;
    }
    proof {
        lemma_bucket_index_unique(bv, d@, buckets@.len() as int);
    }
    i
}

/// Groups the filtered pairs into insertion-ordered domain buckets.
pub fn bucketize(pairs: Vec<(String, String)>) -> (r: Vec<DomainBucket>)
    ensures
        bucket_views(r@) == spec_buckets(pair_views(pairs@)),
{
    let mut pairs = pairs;
    let ghost all = pairs@;
    let total: usize = pairs.len();
    let mut buckets: Vec<DomainBucket> = Vec::new();
    let mut done: usize = 0;
    while pairs.len() > 0
        invariant
            all.len() == total,
            done + pairs@.len() == all.len(),
            pairs@ == all.skip(done as int),
            bucket_views(buckets@) == spec_buckets(pair_views(all.take(done as int))),
        decreases pairs@.len(),
    {
        let q = pairs.remove(0);
        proof {
            assert(all.skip(done as int).remove(0) =~= all.skip(done as int + 1));
            assert(all.take(done as int).push(q) =~= all.take(done as int + 1));
            assert(pair_views(all.take(done as int).push(q)) =~= pair_views(
                all.take(done as int),
            ).push((q.0@, q.1@)));
            assert(pair_views(all.take(done as int + 1)).drop_last() =~= pair_views(
                all.take(done as int),
            ));
        }
        let ghost bv = bucket_views(buckets@);
        let (d, u) = q;
        let ix = find_bucket(&buckets, &d);
        proof {
            lemma_bucket_index_props(bv, d@);
        }
        if ix < buckets.len() {
            buckets[ix].urls.push(u);
            proof {
                assert(str_views(buckets@[ix as int].urls@) =~= bv[ix as int].1.push(u@));
                assert(bucket_views(buckets@) =~= bv.update(ix as int, (d@, bv[ix as int].1.push(u@))));
            }
        } else {
            buckets.push(DomainBucket { domain: d, urls: vec![u] });
            proof {
                assert(str_views(buckets@.last().urls@) =~= seq![u@]);
                assert(bucket_views(buckets@) =~= bv.push((d@, seq![u@])));
            }
        }
        done += 1;
    }
    proof {
        assert(all.take(done as int) =~= all);
    }
    buckets
}

/// Scores of one multi bucket at enumeration position `i`: the `j`-th
/// URL gets `i/10000 + j/(n-1)`.
pub open spec fn multi_scored(i: int, urls: Seq<Seq<char>>) -> Seq<((int, int), Seq<char>)> {
    urls.map(|j: int, u: Seq<char>| (spec_multi_score(i, urls.len() as int, j), u))
}

/// Every URL of the bucket list paired with its precedence score, bucket
/// by bucket; `s` is the batch's solo-bucket count and the solo rank is
/// the accumulated count of solo buckets seen earlier.
pub open spec fn spec_scored(bs: Seq<(Seq<char>, Seq<Seq<char>>)>, s: int) -> Seq<
    ((int, int), Seq<char>),
>
    decreases bs.len(),
{
    if bs.len() == 0 {
        Seq::empty()
    } else {
        let pre = spec_scored(bs.drop_last(), s);
        let b = bs.last();
        let i = bs.len() - 1;
        if b.1.len() == 1 {
            pre.push((spec_solo_score(i, s, solo_count(bs.drop_last())), b.1[0]))
        } else {
            pre + multi_scored(i, b.1)
        }
    }
}

/// Counts the batch's solo buckets.
pub fn count_solos(buckets: &Vec<DomainBucket>) -> (r: usize)
    ensures
        r as int == solo_count(bucket_views(buckets@)),
{
    let ghost bv = bucket_views(buckets@);
    let mut count: usize = 0;
    let mut i: usize = 0;
    while i < buckets.len()
        invariant
            bv == bucket_views(buckets@),
            bv.len() == buckets@.len(),
            0 <= i <= buckets@.len(),
            count <= i,
            count as int == solo_count(bv.take(i as int)),
        decreases buckets@.len() - i,
    {
        proof {
            assert(bv.take(i as int + 1).drop_last() =~= bv.take(i as int));
            assert(bv.take(i as int + 1).last() == bv[i as int]);
            assert(bv[i as int].1.len() == buckets@[i as int].urls@.len());
        }
        if buckets[i].urls.len() == 1 {
            count += 1;
        }
        i += 1;
    }
    proof {
        assert(bv.take(buckets@.len() as int) =~= bv);
    }
    count
}

/// Annotates every URL with its precedence score, walking the buckets in
/// enumeration order and threading the solo rank through as an explicit
/// accumulator.
pub fn score_buckets(buckets: Vec<DomainBucket>, s: usize) -> (r: Vec<ScoredUrl>)
    requires
        buckets@.len() <= MAX_BATCH_LEN,
        forall|b: int|
            0 <= b < buckets@.len() ==> 1 <= #[trigger] bucket_views(buckets@)[b].1.len()
                <= MAX_BATCH_LEN,
        s as int == solo_count(bucket_views(buckets@)),
    ensures
        scored_views(r@) == spec_scored(bucket_views(buckets@), s as int),
{
    let mut buckets = buckets;
    let ghost rawb = buckets@;
    let ghost bv = bucket_views(buckets@);
    let total: usize = buckets.len();
    let mut out: Vec<ScoredUrl> = Vec::new();
    let mut i: usize = 0;
    let mut k: usize = 0;
    while buckets.len() > 0
        invariant
            bv == bucket_views(rawb),
            bv.len() == total,
            rawb.len() == total,
            i + buckets@.len() == total,
            total <= MAX_BATCH_LEN,
            forall|b: int| 0 <= b < bv.len() ==> 1 <= #[trigger] bv[b].1.len() <= MAX_BATCH_LEN,
            s as int == solo_count(bv),
            buckets@ == rawb.skip(i as int),
            scored_views(out@) == spec_scored(bv.take(i as int), s as int),
            k as int == solo_count(bv.take(i as int)),
            k <= i,
        decreases buckets@.len(),
    {
        let mut b = buckets.remove(0);
        proof {
            assert(rawb.skip(i as int).remove(0) =~= rawb.skip(i as int + 1));
            assert(b == rawb.skip(i as int)[0]);
            assert(b == rawb[i as int]);
            assert(bucket_views(rawb)[i as int] == bucket_view(rawb[i as int]));
            assert(bucket_view(b) == bv[i as int]);
            assert(bv.take(i as int + 1).drop_last() =~= bv.take(i as int));
            assert(bv.take(i as int + 1).last() == bv[i as int]);
            assert(b.urls@.len() == bv[i as int].1.len());
            lemma_solo_count_bounds(bv.take(i as int));
        }
        let n = b.urls.len();
        if n == 1 {
            proof {
                lemma_solo_count_split(bv, i as int);
                lemma_solo_count_first(bv.skip(i as int));
                lemma_solo_count_bounds(bv.skip(i as int).drop_first());
                assert(bv.skip(i as int).first() == bv[i as int]);
                assert(k < s);
            }
            let prec = solo_score(i, s, k);
            let u = b.urls.remove(0);
            proof {
                assert(u@ == bv[i as int].1[0]);
            }
            out.push(ScoredUrl { prec, url: u });
            proof {
                assert(scored_views(out@) =~= scored_views(out@.drop_last()).push(
                    scored_view(out@.last()),
                ));
            }
            k += 1;
        } else {
            let ghost piece = multi_scored(i as int, bv[i as int].1);
            let ghost rawu = b.urls@;
            let mut j: usize = 0;
            proof {
                assert(str_views(rawu) == bv[i as int].1);
                assert(scored_views(out@) + piece.take(0) =~= scored_views(out@));
            }
            while b.urls.len() > 0
                invariant
                    bv.len() == total,
                    i < total <= MAX_BATCH_LEN,
                    2 <= n <= MAX_BATCH_LEN,
                    n as int == bv[i as int].1.len(),
                    rawu.len() == n,
                    j + b.urls@.len() == n,
                    b.urls@ == rawu.skip(j as int),
                    str_views(rawu) == bv[i as int].1,
                    piece == multi_scored(i as int, bv[i as int].1),
                    scored_views(out@) == spec_scored(bv.take(i as int), s as int) + piece.take(
                        j as int,
                    ),
                decreases b.urls@.len(),
            {
                let u = b.urls.remove(0);
                proof {
                    assert(rawu.skip(j as int).remove(0) =~= rawu.skip(j as int + 1));
                    assert(u == rawu.skip(j as int)[0]);
                    assert(u == rawu[j as int]);
                    assert(str_views(rawu)[j as int] == rawu[j as int]@);
                    assert(u@ == bv[i as int].1[j as int]);
                }
                let prec = multi_score(i, n, j);
                out.push(ScoredUrl { prec, url: u });
                proof {
                    assert(piece[j as int] == (
                        spec_multi_score(i as int, n as int, j as int),
                        bv[i as int].1[j as int],
                    ));
                    assert(scored_views(out@) =~= (spec_scored(bv.take(i as int), s as int)
                        + piece.take(j as int)).push(piece[j as int]));
                    assert(piece.take(j as int + 1) =~= piece.take(j as int).push(
                        piece[j as int],
                    ));
                    assert(scored_views(out@) =~= spec_scored(bv.take(i as int), s as int)
                        + piece.take(j as int + 1));
                }
                j += 1;
            }
            proof {
                assert(piece.take(n as int) =~= piece);
            }
        }
        i += 1;
    }
    proof {
        assert(bv.take(total as int) =~= bv);
    }
    out
}

/// Inserts a scored URL into an already sorted run, from the right,
/// moving left only past strictly greater scores, so equal scores keep
/// their arrival order (stability).
pub open spec fn spec_insert(
    x: ((int, int), Seq<char>),
    s: Seq<((int, int), Seq<char>)>,
) -> Seq<((int, int), Seq<char>)>
    decreases s.len(),
{
    if s.len() == 0 {
        seq![x]
    } else if rat_lt(x.0, s.last().0) {
        spec_insert(x, s.drop_last()).push(s.last())
    } else {
        s.push(x)
    }
}

/// Stable insertion sort of the scored URLs, ascending by score.
pub open spec fn spec_sort(s: Seq<((int, int), Seq<char>)>) -> Seq<((int, int), Seq<char>)>
    decreases s.len(),
{
    if s.len() == 0 {
        Seq::empty()
    } else {
        spec_insert(s.last(), spec_sort(s.drop_last()))
    }
}

fn insert_scored(v: Vec<ScoredUrl>, x: ScoredUrl) -> (r: Vec<ScoredUrl>)
    ensures
        scored_views(r@) == spec_insert(scored_view(x), scored_views(v@)),
    decreases v@.len(),
{
    let mut v = v;
    if v.len() == 0 {
        v.push(x);
        proof {
            assert(scored_views(v@) =~= seq![scored_view(x)]);
        }
        v
    } else {
        let ghost sv = scored_views(v@);
        proof {
            assert(sv.last() == scored_view(v@.last()));
        }
        if prec_lt(&x.prec, &v[v.len() - 1].prec) {
            let last = match v.pop() {
                Some(y) => y,
                None => unreached(),
            };
            proof {
                assert(scored_views(v@) =~= sv.drop_last());
            }
            let mut r = insert_scored(v, x);
            r.push(last);
            proof {
                assert(scored_views(r@) =~= spec_insert(scored_view(x), sv.drop_last()).push(
                    sv.last(),
                ));
            }
            r
        } else {
            v.push(x);
            proof {
                assert(scored_views(v@) =~= sv.push(scored_view(x)));
            }
            v
        }
    }
}

/// Stable-sorts the scored URLs ascending by precedence score.
pub fn sort_scored(items: Vec<ScoredUrl>) -> (r: Vec<ScoredUrl>)
    ensures
        scored_views(r@) == spec_sort(scored_views(items@)),
{
    let mut items = items;
    let ghost rawi = items@;
    let ghost all = scored_views(items@);
    let total: usize = items.len();
    let mut out: Vec<ScoredUrl> = Vec::new();
    let mut done: usize = 0;
    while items.len() > 0
        invariant
            all == scored_views(rawi),
            all.len() == total,
            rawi.len() == total,
            done + items@.len() == total,
            items@ == rawi.skip(done as int),
            scored_views(out@) == spec_sort(all.take(done as int)),
        decreases items@.len(),
    {
        let x = items.remove(0);
        proof {
            assert(rawi.skip(done as int).remove(0) =~= rawi.skip(done as int + 1));
            assert(x == rawi.skip(done as int)[0]);
            assert(x == rawi[done as int]);
            assert(scored_views(rawi)[done as int] == scored_view(rawi[done as int]));
            assert(scored_view(x) == all[done as int]);
            assert(all.take(done as int + 1).drop_last() =~= all.take(done as int));
            assert(all.take(done as int + 1).last() == all[done as int]);
        }
        out = insert_scored(out, x);
        done += 1;
    }
    proof {
        assert(all.take(total as int) =~= all);
    }
    out
}

/// The full schedule of a batch whose URLs come paired with their
/// extracted domains: filter, bucket, score, stable-sort, and keep the
/// URLs only.
pub open spec fn spec_schedule_pairs(ps: Seq<(Seq<char>, Option<Seq<char>>)>) -> Seq<Seq<char>> {
    let bs = spec_buckets(kept_pairs(ps));
    spec_sort(spec_scored(bs, solo_count(bs))).map_values(|w: ((int, int), Seq<char>)| w.1)
}

/// Schedules a batch whose registrable domains are already extracted:
/// the returned URLs are exactly the surviving ones, reordered by
/// ascending precedence score.
pub fn schedule_with_domains(entries: Vec<UrlEntry>) -> (r: Vec<String>)
    requires
        entries@.len() <= MAX_BATCH_LEN,
    ensures
        str_views(r@) == spec_schedule_pairs(entry_views(entries@)),
{
    let ghost ev = entry_views(entries@);
    let kept = filter_entries(entries);
    let ghost qs = pair_views(kept@);
    proof {
        lemma_buckets_bounds(qs);
    }
    let buckets = bucketize(kept);
    proof {
        lemma_solo_count_bounds(bucket_views(buckets@));
    }
    let s = count_solos(&buckets);
    let scored = score_buckets(buckets, s);
    let mut sorted = sort_scored(scored);
    let ghost fin = spec_schedule_pairs(ev);
    let ghost raws = sorted@;
    let ghost sv = scored_views(sorted@);
    let total: usize = sorted.len();
    let mut out: Vec<String> = Vec::new();
    let mut done: usize = 0;
    proof {
        assert(fin == sv.map_values(|w: ((int, int), Seq<char>)| w.1));
    }
    while sorted.len() > 0
        invariant
            sv == scored_views(raws),
            sv.len() == total,
            raws.len() == total,
            done + sorted@.len() == total,
            sorted@ == raws.skip(done as int),
            str_views(out@) == sv.take(done as int).map_values(|w: ((int, int), Seq<char>)| w.1),
        decreases sorted@.len(),
    {
        let x = sorted.remove(0);
        proof {
            assert(raws.skip(done as int).remove(0) =~= raws.skip(done as int + 1));
            assert(x == raws.skip(done as int)[0]);
            assert(x == raws[done as int]);
            assert(scored_views(raws)[done as int] == scored_view(raws[done as int]));
            assert(scored_view(x) == sv[done as int]);
        }
        out.push(x.url);
        proof {
            assert(str_views(out@) =~= sv.take(done as int).map_values(
                |w: ((int, int), Seq<char>)| w.1,
            ).push(sv[done as int].1));
            assert(sv.take(done as int + 1).map_values(|w: ((int, int), Seq<char>)| w.1) =~= sv.take(
                done as int,
            ).map_values(|w: ((int, int), Seq<char>)| w.1).push(sv[done as int].1));
        }
        done += 1;
    }
    proof {
        assert(sv.take(total as int) =~= sv);
        assert(str_views(out@) =~= fin);
    }
    out
}

/// Solo fairness: with `s >= 2` solo buckets in the batch, solo scores
/// strictly increase with the solo rank. A later solo bucket (larger
/// bucket-enumeration position `i2 > i1`, larger solo rank `k2 > k1`)
/// always scores strictly higher, so solo URLs keep their
/// bucket-enumeration order in the sorted schedule.
pub proof fn lemma_solo_scores_increase(i1: int, k1: int, i2: int, k2: int, s: int)
    requires
        2 <= s,
        0 <= i1 < i2,
        0 <= k1 < k2 < s,
    ensures
        rat_lt(spec_solo_score(i1, s, k1), spec_solo_score(i2, s, k2)),
{
    let a = spec_solo_score(i1, s, k1);
    let b = spec_solo_score(i2, s, k2);
    assert(a.0 * b.1 < b.0 * a.1) by (nonlinear_arith)
        requires
            a == (i1 * (s - 1) + 100 * ((s - 1) + 98 * k1), 10000 * (s - 1)),
            b == (i2 * (s - 1) + 100 * ((s - 1) + 98 * k2), 10000 * (s - 1)),
            2 <= s,
            0 <= i1,
            i1 < i2,
            0 <= k1,
            k1 < k2,
            k2 < s,
    ;
}

/// Stability: the schedule is a function of the batch's URLs and their
/// extracted domains alone, so byte-identical input (with the same
/// bucket-enumeration order, which insertion-ordered bucketing fixes)
/// yields byte-identical output.
pub proof fn lemma_schedule_deterministic(
    ps1: Seq<(Seq<char>, Option<Seq<char>>)>,
    ps2: Seq<(Seq<char>, Option<Seq<char>>)>,
)
    requires
        ps1 == ps2,
    ensures
        spec_schedule_pairs(ps1) == spec_schedule_pairs(ps2),
{
}

pub proof fn lemma_solo_count_all(bs: Seq<(Seq<char>, Seq<Seq<char>>)>)
    requires
        forall|b: int| 0 <= b < bs.len() ==> #[trigger] bs[b].1.len() == 1,
    ensures
        solo_count(bs) == bs.len(),
    decreases bs.len(),
{
    if bs.len() > 0 {
        lemma_solo_count_all(bs.drop_last());
    }
}

/// With pairwise distinct domains, every pair opens its own bucket, in
/// input order.
pub proof fn lemma_buckets_distinct(qs: Seq<(Seq<char>, Seq<char>)>)
    requires
        forall|i: int, j: int|
            0 <= i < j < qs.len() ==> #[trigger] qs[i].0 != #[trigger] qs[j].0,
    ensures
        spec_buckets(qs) == qs.map(|i: int, q: (Seq<char>, Seq<char>)| (q.0, seq![q.1])),
    decreases qs.len(),
{
    let m = qs.map(|i: int, q: (Seq<char>, Seq<char>)| (q.0, seq![q.1]));
    if qs.len() == 0 {
        assert(spec_buckets(qs) =~= m);
    } else {
        lemma_buckets_distinct(qs.drop_last());
        let pre = qs.drop_last();
        let bs = spec_buckets(pre);
        let q = qs.last();
        let mpre = pre.map(|i: int, p: (Seq<char>, Seq<char>)| (p.0, seq![p.1]));
        assert(bs == mpre);
        assert(bs.len() == pre.len());
        assert forall|j: int| 0 <= j < bs.len() implies bs[j].0 != q.0 by {
            assert(bs[j] == (pre[j].0, seq![pre[j].1]));
            assert(pre[j] == qs[j]);
            assert(qs[j].0 != qs[qs.len() - 1].0);
        }
        lemma_bucket_index_unique(bs, q.0, bs.len() as int);
        assert(spec_buckets(qs) == bs.push((q.0, seq![q.1])));
        assert(bs.push((q.0, seq![q.1])) =~= m);
    }
}

/// Scoring an all-solo bucket list: bucket `i` gets the `i`-th solo
/// score and contributes its single URL.
pub proof fn lemma_scored_all_solo(bs: Seq<(Seq<char>, Seq<Seq<char>>)>, s: int)
    requires
        forall|b: int| 0 <= b < bs.len() ==> #[trigger] bs[b].1.len() == 1,
        s == bs.len(),
    ensures
        spec_scored(bs, s) == bs.map(
            |i: int, b: (Seq<char>, Seq<Seq<char>>)| (spec_solo_score(i, s, i), b.1[0]),
        ),
    decreases bs.len(),
{
    let m = bs.map(|i: int, b: (Seq<char>, Seq<Seq<char>>)| (spec_solo_score(i, s, i), b.1[0]));
    if bs.len() == 0 {
        assert(spec_scored(bs, s) =~= m);
    } else {
        lemma_scored_all_solo_from(bs, s, bs.len() as int);
        assert(bs.take(bs.len() as int) =~= bs);
        assert(bs.take(bs.len() as int).map(
            |i: int, b: (Seq<char>, Seq<Seq<char>>)| (spec_solo_score(i, s, i), b.1[0]),
        ) =~= m);
    }
}

/// Helper: scoring a prefix of an all-solo bucket list.
pub proof fn lemma_scored_all_solo_from(bs: Seq<(Seq<char>, Seq<Seq<char>>)>, s: int, t: int)
    requires
        forall|b: int| 0 <= b < bs.len() ==> #[trigger] bs[b].1.len() == 1,
        0 <= t <= bs.len(),
    ensures
        spec_scored(bs.take(t), s) == bs.take(t).map(
            |i: int, b: (Seq<char>, Seq<Seq<char>>)| (spec_solo_score(i, s, i), b.1[0]),
        ),
    decreases t,
{
    let pre = bs.take(t);
    let m = pre.map(|i: int, b: (Seq<char>, Seq<Seq<char>>)| (spec_solo_score(i, s, i), b.1[0]));
    if t == 0 {
        assert(spec_scored(pre, s) =~= m);
    } else {
        lemma_scored_all_solo_from(bs, s, t - 1);
        assert(pre.drop_last() =~= bs.take(t - 1));
        assert(pre.last() == bs[t - 1]);
        assert(bs[t - 1].1.len() == 1);
        assert forall|b: int| 0 <= b < bs.take(t - 1).len() implies #[trigger] bs.take(
            t - 1,
        )[b].1.len() == 1 by {
            assert(bs.take(t - 1)[b] == bs[b]);
        }
        lemma_solo_count_all(bs.take(t - 1));
        assert(spec_scored(pre, s) == spec_scored(bs.take(t - 1), s).push(
            (spec_solo_score(t - 1, s, t - 1), bs[t - 1].1[0]),
        ));
        assert(bs.take(t - 1).map(
            |i: int, b: (Seq<char>, Seq<Seq<char>>)| (spec_solo_score(i, s, i), b.1[0]),
        ).push((spec_solo_score(t - 1, s, t - 1), bs[t - 1].1[0])) =~= m);
    }
}

/// Sorting a run whose scores already strictly increase leaves it
/// unchanged.
pub proof fn lemma_sort_of_increasing(sv: Seq<((int, int), Seq<char>)>)
    requires
        forall|i: int, j: int| 0 <= i < j < sv.len() ==> rat_lt(
            #[trigger] sv[i].0,
            #[trigger] sv[j].0,
        ),
    ensures
        spec_sort(sv) == sv,
    decreases sv.len(),
{
    if sv.len() == 0 {
        assert(spec_sort(sv) =~= sv);
    } else {
        let pre = sv.drop_last();
        assert forall|i: int, j: int| 0 <= i < j < pre.len() implies rat_lt(
            #[trigger] pre[i].0,
            #[trigger] pre[j].0,
        ) by {
            assert(pre[i] == sv[i]);
            assert(pre[j] == sv[j]);
        }
        lemma_sort_of_increasing(pre);
        let x = sv.last();
        if pre.len() == 0 {
            assert(spec_insert(x, pre) =~= seq![x]);
            assert(seq![x] =~= sv);
        } else {
            assert(pre.last() == sv[sv.len() - 2]);
            assert(rat_lt(sv[sv.len() - 2].0, x.0));
            assert(!rat_lt(x.0, pre.last().0));
            assert(spec_insert(x, pre) == pre.push(x));
            assert(pre.push(x) =~= sv);
        }
    }
}

/// Inserting an element strictly below everything puts it in front.
proof fn lemma_insert_min_front(
    x: ((int, int), Seq<char>),
    t: Seq<((int, int), Seq<char>)>,
)
    requires
        forall|j: int| 0 <= j < t.len() ==> rat_lt(x.0, #[trigger] t[j].0),
    ensures
        spec_insert(x, t) == seq![x] + t,
    decreases t.len(),
{
    if t.len() == 0 {
        assert(spec_insert(x, t) =~= seq![x] + t);
    } else {
        assert(rat_lt(x.0, t.last().0));
        assert forall|j: int| 0 <= j < t.drop_last().len() implies rat_lt(
            x.0,
            #[trigger] t.drop_last()[j].0,
        ) by {
            assert(t.drop_last()[j] == t[j]);
        }
        lemma_insert_min_front(x, t.drop_last());
        assert((seq![x] + t.drop_last()).push(t.last()) =~= seq![x] + t);
    }
}

/// Inserting an element below only the topmost of a run slips it in
/// just before the top.
proof fn lemma_insert_second_from_top(
    x: ((int, int), Seq<char>),
    t: Seq<((int, int), Seq<char>)>,
)
    requires
        t.len() >= 1,
        rat_lt(x.0, t.last().0),
        t.len() >= 2 ==> !rat_lt(x.0, t[t.len() - 2].0),
    ensures
        spec_insert(x, t) == t.drop_last().push(x).push(t.last()),
{
    if t.len() == 1 {
        assert(t.drop_last() =~= Seq::<((int, int), Seq<char>)>::empty());
        assert(spec_insert(x, t.drop_last()) =~= seq![x]);
        assert(seq![x] =~= t.drop_last().push(x));
    } else {
        assert(t.drop_last().last() == t[t.len() - 2]);
        assert(spec_insert(x, t.drop_last()) == t.drop_last().push(x));
    }
}

/// Stable-sorting a run shaped `low solos, the two multi items, high
/// solos` — every solo strictly between the two multi scores, solos
/// strictly increasing — yields the first multi item, all solos, then
/// the second multi item.
proof fn lemma_sort_structure(
    sb: Seq<((int, int), Seq<char>)>,
    m0: ((int, int), Seq<char>),
    m1: ((int, int), Seq<char>),
    sa: Seq<((int, int), Seq<char>)>,
)
    requires
        rat_lt(m0.0, m1.0),
        forall|j: int| 0 <= j < sb.len() ==> rat_lt(m0.0, #[trigger] sb[j].0) && rat_lt(
            #[trigger] sb[j].0,
            m1.0,
        ),
        forall|j: int| 0 <= j < sa.len() ==> rat_lt(m0.0, #[trigger] sa[j].0) && rat_lt(
            #[trigger] sa[j].0,
            m1.0,
        ),
        forall|i: int, j: int| 0 <= i < j < sb.len() ==> rat_lt(
            #[trigger] sb[i].0,
            #[trigger] sb[j].0,
        ),
        forall|i: int, j: int| 0 <= i < j < sa.len() ==> rat_lt(
            #[trigger] sa[i].0,
            #[trigger] sa[j].0,
        ),
        forall|i: int, j: int|
            0 <= i < sb.len() && 0 <= j < sa.len() ==> rat_lt(
                #[trigger] sb[i].0,
                #[trigger] sa[j].0,
            ),
    ensures
        spec_sort(sb + seq![m0, m1] + sa) == seq![m0] + sb + sa + seq![m1],
    decreases sa.len(),
{
    let sv = sb + seq![m0, m1] + sa;
    if sa.len() == 0 {
        assert(sv.drop_last() =~= sb.push(m0));
        assert(sv.last() == m1);
        assert(sb.push(m0).drop_last() =~= sb);
        assert(sb.push(m0).last() == m0);
        lemma_sort_of_increasing(sb);
        lemma_insert_min_front(m0, sb);
        assert(spec_sort(sb.push(m0)) == spec_insert(m0, sb));
        assert(spec_sort(sv) == spec_insert(m1, seq![m0] + sb));
        let t = seq![m0] + sb;
        assert(t.len() >= 1);
        assert(!rat_lt(m1.0, t.last().0)) by {
            if sb.len() == 0 {
                assert(t.last() == m0);
            } else {
                assert(t.last() == sb.last());
            }
        }
        assert(spec_insert(m1, t) == t.push(m1));
        assert(t.push(m1) =~= seq![m0] + sb + sa + seq![m1]);
    } else {
        let sa_pre = sa.drop_last();
        let x = sa.last();
        assert forall|i: int, j: int| 0 <= i < j < sa_pre.len() implies rat_lt(
            #[trigger] sa_pre[i].0,
            #[trigger] sa_pre[j].0,
        ) by {
            assert(sa_pre[i] == sa[i]);
            assert(sa_pre[j] == sa[j]);
        }
        assert forall|j: int| 0 <= j < sa_pre.len() implies rat_lt(
            m0.0,
            #[trigger] sa_pre[j].0,
        ) && rat_lt(#[trigger] sa_pre[j].0, m1.0) by {
            assert(sa_pre[j] == sa[j]);
        }
        assert forall|i: int, j: int|
            0 <= i < sb.len() && 0 <= j < sa_pre.len() implies rat_lt(
            #[trigger] sb[i].0,
            #[trigger] sa_pre[j].0,
        ) by {
            assert(sa_pre[j] == sa[j]);
        }
        lemma_sort_structure(sb, m0, m1, sa_pre);
        assert(sv.drop_last() =~= sb + seq![m0, m1] + sa_pre);
        assert(sv.last() == x);
        let t = seq![m0] + sb + sa_pre + seq![m1];
        assert(spec_sort(sv) == spec_insert(x, t));
        assert(t.last() == m1);
        assert(rat_lt(x.0, t.last().0));
        assert(t.len() >= 2);
        assert(!rat_lt(x.0, t[t.len() - 2].0)) by {
            if sa_pre.len() > 0 {
                assert(t[t.len() - 2] == sa_pre.last());
                assert(rat_lt(sa_pre.last().0, x.0));
            } else if sb.len() > 0 {
                assert(t[t.len() - 2] == sb.last());
                assert(rat_lt(sb.last().0, x.0));
            } else {
                assert(t[t.len() - 2] == m0);
                assert(rat_lt(m0.0, x.0));
            }
        }
        lemma_insert_second_from_top(x, t);
        assert(t.drop_last() =~= seq![m0] + sb + sa_pre);
        assert(t.drop_last().push(x).push(t.last()) =~= seq![m0] + sb + sa + seq![m1]);
    }
}

/// Solo fairness at the output level: a batch whose surviving URLs have
/// pairwise distinct domains (every bucket solo) is returned in its
/// first-seen order — the solo URLs' output positions are monotone in
/// their bucket-enumeration order.
pub proof fn lemma_solo_fairness_order(ps: Seq<(Seq<char>, Option<Seq<char>>)>)
    requires
        forall|i: int, j: int|
            0 <= i < j < kept_pairs(ps).len() ==> #[trigger] kept_pairs(ps)[i].0
                != #[trigger] kept_pairs(ps)[j].0,
    ensures
        spec_schedule_pairs(ps) == kept_pairs(ps).map_values(|q: (Seq<char>, Seq<char>)| q.1),
{
    let qs = kept_pairs(ps);
    lemma_buckets_distinct(qs);
    let bs = spec_buckets(qs);
    assert forall|b: int| 0 <= b < bs.len() implies #[trigger] bs[b].1.len() == 1 by {
        assert(bs[b] == (qs[b].0, seq![qs[b].1]));
    }
    lemma_solo_count_all(bs);
    let s = solo_count(bs);
    lemma_scored_all_solo(bs, s);
    let sv = spec_scored(bs, s);
    assert(sv.len() == bs.len());
    assert forall|i: int, j: int| 0 <= i < j < sv.len() implies rat_lt(
        #[trigger] sv[i].0,
        #[trigger] sv[j].0,
    ) by {
        assert(sv[i] == (spec_solo_score(i, s, i), bs[i].1[0]));
        assert(sv[j] == (spec_solo_score(j, s, j), bs[j].1[0]));
        if s >= 2 {
            lemma_solo_scores_increase(i, i, j, j, s);
        }
    }
    lemma_sort_of_increasing(sv);
    assert(spec_schedule_pairs(ps) == sv.map_values(|w: ((int, int), Seq<char>)| w.1));
    assert(sv.map_values(|w: ((int, int), Seq<char>)| w.1) =~= qs.map_values(
        |q: (Seq<char>, Seq<char>)| q.1,
    ));
}

/// The scores of a prefix of a bucket list whose only multi bucket, of
/// size two, stands at enumeration position `p`: solos before it rank
/// `i`, solos after it rank `i - 1`.
proof fn lemma_scored_one_multi(bs: Seq<(Seq<char>, Seq<Seq<char>>)>, s: int, p: int, t: int)
    requires
        0 <= p < bs.len(),
        bs[p].1.len() == 2,
        forall|b: int| 0 <= b < bs.len() && b != p ==> #[trigger] bs[b].1.len() == 1,
        s == bs.len() - 1,
        0 <= t <= bs.len(),
    ensures
        solo_count(bs.take(t)) == if t <= p {
            t
        } else {
            t - 1
        },
        t <= p ==> spec_scored(bs.take(t), s) == bs.take(t).map(
            |i: int, b: (Seq<char>, Seq<Seq<char>>)| (spec_solo_score(i, s, i), b.1[0]),
        ),
        t > p ==> spec_scored(bs.take(t), s) == bs.take(p).map(
            |i: int, b: (Seq<char>, Seq<Seq<char>>)| (spec_solo_score(i, s, i), b.1[0]),
        ) + seq![
            (spec_multi_score(p, 2, 0), bs[p].1[0]),
            (spec_multi_score(p, 2, 1), bs[p].1[1]),
        ] + bs.subrange(p + 1, t).map(
            |i: int, b: (Seq<char>, Seq<Seq<char>>)| (spec_solo_score(p + 1 + i, s, p + i), b.1[0]),
        ),
    decreases t,
{
    let fpre = |i: int, b: (Seq<char>, Seq<Seq<char>>)| (spec_solo_score(i, s, i), b.1[0]);
    let fpost = |i: int, b: (Seq<char>, Seq<Seq<char>>)|
        (spec_solo_score(p + 1 + i, s, p + i), b.1[0]);
    let mid = seq![
        (spec_multi_score(p, 2, 0), bs[p].1[0]),
        (spec_multi_score(p, 2, 1), bs[p].1[1]),
    ];
    if t == 0 {
        assert(bs.take(0) =~= Seq::<(Seq<char>, Seq<Seq<char>>)>::empty());
        assert(spec_scored(bs.take(0), s) =~= bs.take(0).map(fpre));
    } else {
        lemma_scored_one_multi(bs, s, p, t - 1);
        let pre = bs.take(t);
        assert(pre.drop_last() =~= bs.take(t - 1));
        assert(pre.last() == bs[t - 1]);
        if t - 1 < p {
            assert(bs[t - 1].1.len() == 1);
            assert(spec_scored(pre, s) == spec_scored(bs.take(t - 1), s).push(
                (spec_solo_score(t - 1, s, t - 1), bs[t - 1].1[0]),
            ));
            assert(bs.take(t - 1).map(fpre).push((spec_solo_score(t - 1, s, t - 1), bs[t
                - 1].1[0])) =~= bs.take(t).map(fpre));
        } else if t - 1 == p {
            assert(spec_scored(pre, s) == spec_scored(bs.take(p), s) + multi_scored(
                p,
                bs[p].1,
            ));
            assert(multi_scored(p, bs[p].1) =~= mid);
            assert(bs.subrange(p + 1, t).map(fpost) =~= Seq::<((int, int), Seq<char>)>::empty());
            assert(bs.take(p).map(fpre) + mid + bs.subrange(p + 1, t).map(fpost) =~= bs.take(
                p,
            ).map(fpre) + mid);
        } else {
            assert(bs[t - 1].1.len() == 1);
            assert(solo_count(bs.take(t - 1)) == t - 2);
            assert(spec_scored(pre, s) == spec_scored(bs.take(t - 1), s).push(
                (spec_solo_score(t - 1, s, t - 2), bs[t - 1].1[0]),
            ));
            assert((bs.take(p).map(fpre) + mid + bs.subrange(p + 1, t - 1).map(fpost)).push(
                (spec_solo_score(t - 1, s, t - 2), bs[t - 1].1[0]),
            ) =~= bs.take(p).map(fpre) + mid + bs.subrange(p + 1, t).map(fpost)) by {
                assert(bs.subrange(p + 1, t).map(fpost).len() == t - p - 1);
                assert forall|j: int| 0 <= j < t - p - 1 implies #[trigger] bs.subrange(
                    p + 1,
                    t,
                ).map(fpost)[j] == (if j < t - p - 2 {
                    bs.subrange(p + 1, t - 1).map(fpost)[j]
                } else {
                    (spec_solo_score(t - 1, s, t - 2), bs[t - 1].1[0])
                }) by {
                    assert(bs.subrange(p + 1, t)[j] == bs[p + 1 + j]);
                    if j < t - p - 2 {
                        assert(bs.subrange(p + 1, t - 1)[j] == bs[p + 1 + j]);
                    }
                }
            }
        }
    }
}

/// The multi bucket's low score sits below every solo score.
proof fn lemma_multi_low_below_solo(p: int, i: int, s: int, k: int)
    requires
        0 <= p < 100,
        0 <= i,
        1 <= s,
        0 <= k < s,
    ensures
        rat_lt(spec_multi_score(p, 2, 0), spec_solo_score(i, s, k)),
{
    if s == 1 {
        assert(p * 10000 < (i + 100) * 10000) by (nonlinear_arith)
            requires
                0 <= p < 100,
                0 <= i,
        ;
    } else {
        assert(p * (10000 * (s - 1)) < (i * (s - 1) + 100 * ((s - 1) + 98 * k)) * 10000)
            by (nonlinear_arith)
            requires
                0 <= p < 100,
                0 <= i,
                2 <= s,
                0 <= k,
        ;
    }
}

/// Every solo score sits below the multi bucket's high score.
proof fn lemma_solo_below_multi_high(p: int, i: int, s: int, k: int)
    requires
        0 <= p,
        0 <= i <= 99,
        1 <= s,
        0 <= k < s,
    ensures
        rat_lt(spec_solo_score(i, s, k), spec_multi_score(p, 2, 1)),
{
    if s == 1 {
        assert((i + 100) * 10000 < (p * 1 + 10000 * 1) * 10000) by (nonlinear_arith)
            requires
                0 <= p,
                0 <= i <= 99,
        ;
    } else {
        assert((i * (s - 1) + 100 * ((s - 1) + 98 * k)) * (10000 * 1) < (p * 1 + 10000 * 1) * (
        10000 * (s - 1))) by (nonlinear_arith)
            requires
                0 <= p,
                0 <= i <= 99,
                2 <= s,
                0 <= k <= s - 1,
        ;
    }
}

/// Domain separation: in a batch whose buckets are one doubled domain
/// among any number of solo domains — at most one hundred buckets in all
/// — the doubled domain's two URLs come out first and last, every solo
/// URL strictly between them: the doubled domain's URLs are never
/// adjacent.
pub proof fn lemma_domain_separation(ps: Seq<(Seq<char>, Option<Seq<char>>)>, p: int)
    requires
        2 <= spec_buckets(kept_pairs(ps)).len() <= 100,
        0 <= p < spec_buckets(kept_pairs(ps)).len(),
        spec_buckets(kept_pairs(ps))[p].1.len() == 2,
        forall|b: int|
            0 <= b < spec_buckets(kept_pairs(ps)).len() && b != p ==> #[trigger] spec_buckets(
                kept_pairs(ps),
            )[b].1.len() == 1,
    ensures
        spec_schedule_pairs(ps).len() == spec_buckets(kept_pairs(ps)).len() + 1,
        spec_schedule_pairs(ps) == seq![spec_buckets(kept_pairs(ps))[p].1[0]] + (spec_buckets(
            kept_pairs(ps),
        ).take(p) + spec_buckets(kept_pairs(ps)).skip(p + 1)).map_values(
            |b: (Seq<char>, Seq<Seq<char>>)| b.1[0],
        ) + seq![spec_buckets(kept_pairs(ps))[p].1[1]],
{
    let bs = spec_buckets(kept_pairs(ps));
    let n = bs.len() as int;
    let s = n - 1;
    lemma_scored_one_multi(bs, s, p, n);
    assert(bs.take(n) =~= bs);
    assert(solo_count(bs) == s);
    let fpre = |i: int, b: (Seq<char>, Seq<Seq<char>>)| (spec_solo_score(i, s, i), b.1[0]);
    let fpost = |i: int, b: (Seq<char>, Seq<Seq<char>>)|
        (spec_solo_score(p + 1 + i, s, p + i), b.1[0]);
    let m0 = (spec_multi_score(p, 2, 0), bs[p].1[0]);
    let m1 = (spec_multi_score(p, 2, 1), bs[p].1[1]);
    let sb = bs.take(p).map(fpre);
    let sa = bs.subrange(p + 1, n).map(fpost);
    assert(spec_scored(bs, s) == sb + seq![m0, m1] + sa);
    assert(rat_lt(m0.0, m1.0)) by {
        assert(p * (10000 * 1) < (p * 1 + 10000 * 1) * (10000 * 1)) by (nonlinear_arith)
            requires
                0 <= p < 100,
        ;
    }
    assert forall|j: int| 0 <= j < sb.len() implies rat_lt(m0.0, #[trigger] sb[j].0) && rat_lt(
        sb[j].0,
        m1.0,
    ) by {
        assert(sb[j] == fpre(j, bs.take(p)[j]));
        lemma_multi_low_below_solo(p, j, s, j);
        lemma_solo_below_multi_high(p, j, s, j);
    }
    assert forall|j: int| 0 <= j < sa.len() implies rat_lt(m0.0, #[trigger] sa[j].0) && rat_lt(
        sa[j].0,
        m1.0,
    ) by {
        assert(sa[j] == fpost(j, bs.subrange(p + 1, n)[j]));
        lemma_multi_low_below_solo(p, p + 1 + j, s, p + j);
        lemma_solo_below_multi_high(p, p + 1 + j, s, p + j);
    }
    assert forall|i: int, j: int| 0 <= i < j < sb.len() implies rat_lt(
        #[trigger] sb[i].0,
        #[trigger] sb[j].0,
    ) by {
        assert(sb[i] == fpre(i, bs.take(p)[i]));
        assert(sb[j] == fpre(j, bs.take(p)[j]));
        lemma_solo_scores_increase(i, i, j, j, s);
    }
    assert forall|i: int, j: int| 0 <= i < j < sa.len() implies rat_lt(
        #[trigger] sa[i].0,
        #[trigger] sa[j].0,
    ) by {
        assert(sa[i] == fpost(i, bs.subrange(p + 1, n)[i]));
        assert(sa[j] == fpost(j, bs.subrange(p + 1, n)[j]));
        lemma_solo_scores_increase(p + 1 + i, p + i, p + 1 + j, p + j, s);
    }
    assert forall|i: int, j: int|
        0 <= i < sb.len() && 0 <= j < sa.len() implies rat_lt(
        #[trigger] sb[i].0,
        #[trigger] sa[j].0,
    ) by {
        assert(sb[i] == fpre(i, bs.take(p)[i]));
        assert(sa[j] == fpost(j, bs.subrange(p + 1, n)[j]));
        lemma_solo_scores_increase(i, i, p + 1 + j, p + j, s);
    }
    lemma_sort_structure(sb, m0, m1, sa);
    let sorted = seq![m0] + sb + sa + seq![m1];
    assert(spec_schedule_pairs(ps) == sorted.map_values(|w: ((int, int), Seq<char>)| w.1));
    let mids = (bs.take(p) + bs.skip(p + 1)).map_values(|b: (Seq<char>, Seq<Seq<char>>)| b.1[0]);
    assert(sorted.map_values(|w: ((int, int), Seq<char>)| w.1) =~= seq![bs[p].1[0]] + mids + seq![
        bs[p].1[1],
    ]) by {
        assert(mids.len() == n - 1);
        assert forall|j: int| 0 <= j < n - 1 implies mids[j] == (if j < p {
            sb[j].1
        } else {
            sa[j - p].1
        }) by {
            if j < p {
                assert((bs.take(p) + bs.skip(p + 1))[j] == bs[j]);
                assert(sb[j] == fpre(j, bs.take(p)[j]));
                assert(bs.take(p)[j] == bs[j]);
            } else {
                assert((bs.take(p) + bs.skip(p + 1))[j] == bs[j + 1]);
                assert(sa[j - p] == fpost(j - p, bs.subrange(p + 1, n)[j - p]));
                assert(bs.subrange(p + 1, n)[j - p] == bs[j + 1]);
            }
        }
    }
}

/// The registrable domain (effective TLD plus one label) the external
/// extractor assigns to a URL, or `None` when it finds no host at all.
pub uninterp spec fn domain_of(url: Seq<char>) -> Option<Seq<char>>;

/// Relies on tldextract's `TldExtractor::extract` for registrable-domain
/// extraction. The extractor is built over the crate's bundled
/// public-suffix snapshot: the empty cache path can never be opened, so
/// the local-cache file on disk is never consulted and the result is a
/// function of the URL alone.
#[verifier::external_body]
fn extract_domain(url: &String) -> (r: Option<String>)
    ensures
        opt_view(r) == domain_of(url@),
{
    let extractor = tldextract::TldOption::default().cache_path("").build();
    match extractor.extract(url) {
        Ok(t) => t.domain,
        Err(_) => None,
    }
}

/// Every URL paired with the domain the external extractor assigns it.
pub open spec fn paired_with_domains(us: Seq<Seq<char>>) -> Seq<(Seq<char>, Option<Seq<char>>)> {
    us.map_values(|u: Seq<char>| (u, domain_of(u)))
}

/// The schedule of a raw batch: URLs whose registrable domain the
/// external extractor resolves (and which pass filtering) come back
/// reordered by ascending precedence score; the rest are dropped.
pub fn schedule(urls: Vec<String>) -> (r: Vec<String>)
    requires
        urls@.len() <= MAX_BATCH_LEN,
    ensures
        str_views(r@) == spec_schedule_pairs(paired_with_domains(str_views(urls@))),
{
    let mut urls = urls;
    let ghost raw = urls@;
    let total: usize = urls.len();
    let mut entries: Vec<UrlEntry> = Vec::new();
    let mut done: usize = 0;
    while urls.len() > 0
        invariant
            raw.len() == total,
            done + urls@.len() == total,
            urls@ == raw.skip(done as int),
            entry_views(entries@) == paired_with_domains(str_views(raw.take(done as int))),
            entries@.len() == done,
        decreases urls@.len(),
    {
        let u = urls.remove(0);
        proof {
            assert(raw.skip(done as int).remove(0) =~= raw.skip(done as int + 1));
            assert(u == raw.skip(done as int)[0]);
            assert(u == raw[done as int]);
        }
        let d = extract_domain(&u);
        entries.push(UrlEntry { url: u, domain: d });
        proof {
            assert(entry_views(entries@) =~= entry_views(entries@.drop_last()).push(
                entry_view(entries@.last()),
            ));
            assert(str_views(raw.take(done as int + 1)) =~= str_views(raw.take(done as int)).push(
                raw[done as int]@,
            ));
            assert(paired_with_domains(str_views(raw.take(done as int + 1))) =~= paired_with_domains(
                str_views(raw.take(done as int)),
            ).push((raw[done as int]@, domain_of(raw[done as int]@))));
        }
        done += 1;
    }
    proof {
        assert(raw.take(total as int) =~= raw);
    }
    schedule_with_domains(entries)
}

} // verus!
