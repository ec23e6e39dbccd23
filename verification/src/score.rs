//! Exact rational precedence scores for the domain interleaver.
//!
//! A batch is ordered by ascending score. Scores are rationals kept as a
//! `u64` numerator and denominator, compared exactly by cross
//! multiplication in `u128`, so the schedule is deterministic on every
//! machine.

use vstd::prelude::*;

verus! {

/// Largest batch length the scheduler accepts. Keeps every score
/// numerator and denominator inside `u64` during score construction.
pub const MAX_BATCH_LEN: usize = 100_000_000;

/// A precedence score as an exact non-negative rational number.
#[derive(Clone, Copy, Debug)]
pub struct Precedence {
    pub num: u64,
    pub den: u64,
}

impl Precedence {
    /// A score is well formed when its denominator is positive.
    pub open spec fn wf(self) -> bool {
        self.den > 0
    }

    /// The mathematical value of the score, as a numerator/denominator pair.
    pub open spec fn v(self) -> (int, int) {
        (self.num as int, self.den as int)
    }
}

/// `a < b` on rationals given as numerator/denominator pairs with
/// positive denominators.
pub open spec fn rat_lt(a: (int, int), b: (int, int)) -> bool {
    a.0 * b.1 < b.0 * a.1
}

/// The product of two `u64`-ranged values fits in `u128`.
pub proof fn lemma_u64_product_fits(x: int, y: int)
    requires
        0 <= x <= u64::MAX,
        0 <= y <= u64::MAX,
    ensures
        0 <= x * y <= u128::MAX,
{
    assert(0 <= x * y && x * y <= 0xffff_ffff_ffff_ffffint * 0xffff_ffff_ffff_ffffint)
        by (nonlinear_arith)
        requires
            0 <= x,
            x <= 0xffff_ffff_ffff_ffffint,
            0 <= y,
            y <= 0xffff_ffff_ffff_ffffint,
    ;
}

/// Exact comparison `a < b`, by cross multiplication in `u128`.
pub fn prec_lt(a: &Precedence, b: &Precedence) -> (r: bool)
    ensures
        r == rat_lt(a.v(), b.v()),
{
    proof {
        lemma_u64_product_fits(a.num as int, b.den as int);
        lemma_u64_product_fits(b.num as int, a.den as int);
    }
    (a.num as u128) * (b.den as u128) < (b.num as u128) * (a.den as u128)
}

/// Score of the `j`-th URL (0-based, insertion order) of the multi bucket
/// of size `n >= 2` standing at bucket-enumeration position `i`:
/// `i/10000 + j/(n-1)`, so the bucket's URLs spread over the whole unit
/// range and land far apart after the global sort.
pub open spec fn spec_multi_score(i: int, n: int, j: int) -> (int, int) {
    (i * (n - 1) + 10000 * j, 10000 * (n - 1))
}

/// Score of the `k`-th solo bucket (0-based, bucket-enumeration order)
/// standing at bucket-enumeration position `i`, with `s` solo buckets in
/// the batch: `i/10000 + 1/100 + (98/100)*(k/(s-1))`. With a single solo
/// bucket the spread term is dropped and the bucket sits at the low end:
/// `i/10000 + 1/100`.
pub open spec fn spec_solo_score(i: int, s: int, k: int) -> (int, int) {
    if s <= 1 {
        (i + 100, 10000)
    } else {
        (i * (s - 1) + 100 * ((s - 1) + 98 * k), 10000 * (s - 1))
    }
}

/// Builds the multi-bucket score `i/10000 + j/(n-1)` exactly.
pub fn multi_score(i: usize, n: usize, j: usize) -> (r: Precedence)
    requires
        i < MAX_BATCH_LEN,
        2 <= n <= MAX_BATCH_LEN,
        j < n,
    ensures
        r.wf(),
        r.v() == spec_multi_score(i as int, n as int, j as int),
{
    proof {
        assert((i as int) * ((n - 1) as int) <= 100_000_000int * 100_000_000int) by (nonlinear_arith)
            requires
                0 <= i as int,
                (i as int) < 100_000_000int,
                0 <= (n - 1) as int,
                (n - 1) as int <= 100_000_000int,
        ;
        assert(10000int * ((n - 1) as int) <= 10000int * 100_000_000int) by (nonlinear_arith)
            requires
                0 <= (n - 1) as int,
                (n - 1) as int <= 100_000_000int,
        ;
    }
    let num: u64 = (i as u64) * ((n as u64) - 1) + 10000u64 * (j as u64);
    let den: u64 = 10000u64 * ((n as u64) - 1);
    Precedence { num, den }
}

/// Builds the solo-bucket score `i/10000 + 1/100 + (98/100)*(k/(s-1))`
/// exactly; with `s == 1` the convention `i/10000 + 1/100`.
pub fn solo_score(i: usize, s: usize, k: usize) -> (r: Precedence)
    requires
        i < MAX_BATCH_LEN,
        1 <= s <= MAX_BATCH_LEN,
        k < s,
    ensures
        r.wf(),
        r.v() == spec_solo_score(i as int, s as int, k as int),
{
    if s == 1 {
        Precedence { num: (i as u64) + 100, den: 10000 }
    } else {
        proof {
            assert((i as int) * ((s - 1) as int) <= 100_000_000int * 100_000_000int) by (nonlinear_arith)
                requires
                    0 <= i as int,
                (i as int) < 100_000_000int,
                    0 <= (s - 1) as int,
                (s - 1) as int <= 100_000_000int,
            ;
            assert(100int * (((s - 1) as int) + 98int * (k as int)) <= 100int * (100_000_000int + 98int * 100_000_000int)) by (nonlinear_arith)
                requires
                    0 <= (s - 1) as int,
                (s - 1) as int <= 100_000_000int,
                    0 <= k as int,
                (k as int) < 100_000_000int,
            ;
            assert(10000int * ((s - 1) as int) <= 10000int * 100_000_000int) by (nonlinear_arith)
                requires
                    0 <= (s - 1) as int,
                (s - 1) as int <= 100_000_000int,
            ;
        }
        let num: u64 = (i as u64) * ((s as u64) - 1) + 100u64 * (((s as u64) - 1) + 98u64 * (k as u64));
        let den: u64 = 10000u64 * ((s as u64) - 1);
        Precedence { num, den }
    }
}

} // verus!
