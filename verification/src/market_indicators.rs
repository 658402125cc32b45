//! Stateless market indicators over lifecycle records and raw price series.
//!
//! Prices are cents, durations whole seconds.  Every function is a pure,
//! exact integer computation; its contract states the value it returns.

use vstd::prelude::*;
use crate::model::{wf_lifecycles, OfferLifecycle, MAX_BATCH, MAX_PRICE_CENTS, MAX_TS};
use crate::numeric::{isqrt_u128, lemma_sum_u64_bounds, sort_u64, sum_u64, u64_le};

verus! {

/// Half-open interval `[lower, upper)` of whole currency units used as a
/// grouping key for range-scoped statistics.  Equality and hash are exact on
/// the two bounds.
#[derive(Clone, Copy, PartialEq, Eq, Structural, Hash, Debug)]
pub struct PriceRange(pub u32, pub u32);

/// Stateless provider of the market indicators: disappearance speed, price
/// change frequency, relative strength index, volatility and median
/// lifespan.
pub struct MarketAnalyzer;

/// Default width of a price bucket, in whole currency units.
pub const DEFAULT_STEP: u32 = 50;

/// Largest accepted bucket width; keeps the upper bound of every bucket of a
/// valid price within `u32`.
pub const MAX_STEP: u32 = 100_000_000;

/// A price in cents rounded to the nearest whole currency unit, halves away
/// from zero.
pub open spec fn rounded_units(price_cents: u64) -> int {
    (price_cents + 50) / 100
}

/// The bucket a price falls into: the enclosing half-open multiple-of-`step`
/// interval of its rounded whole-unit value.
pub open spec fn spec_price_range(price_cents: u64, step: u32) -> PriceRange {
    let units = rounded_units(price_cents);
    let lower = units / (step as int) * (step as int);
    PriceRange(lower as u32, (lower + step) as u32)
}

/// The bucket of a price under the default step.
pub open spec fn spec_default_range(price_cents: u64) -> PriceRange {
    spec_price_range(price_cents, DEFAULT_STEP)
}

impl MarketAnalyzer {
    /// Price bucket of `price_cents` for the given bucket width.  The bucket
    /// always contains the rounded price and is exactly `step` units wide.
    pub fn get_price_range_with_step(price_cents: u64, step: u32) -> (r: PriceRange)
        requires
            price_cents <= MAX_PRICE_CENTS,
            0 < step <= MAX_STEP,
        ensures
            r == spec_price_range(price_cents, step),
            r.0 <= rounded_units(price_cents) < r.1,
            r.1 - r.0 == step,
    {
        let units: u64 = (price_cents + 50) / 100;
        let step64: u64 = step as u64;
        let q: u64 = units / step64;
        proof {
            assert((q as int) * (step64 as int) <= units as int
                && (units as int) < (q as int) * (step64 as int) + step64 as int)
                by (nonlinear_arith)
                requires
                    step64 as int > 0,
                    q as int == (units as int) / (step64 as int),
            ;
        }
        let lower: u64 = q * step64;
        PriceRange(lower as u32, lower as u32 + step)
    }

    /// Price bucket of `price_cents` under the default step of 50 units.
    pub fn get_price_range(price_cents: u64) -> (r: PriceRange)
        requires
            price_cents <= MAX_PRICE_CENTS,
        ensures
            r == spec_default_range(price_cents),
            r.0 <= rounded_units(price_cents) < r.1,
            r.1 - r.0 == DEFAULT_STEP,
    {
        Self::get_price_range_with_step(price_cents, DEFAULT_STEP)
    }
}

/// Flooring mean of the `w` elements of `s` starting at `i`.
pub open spec fn window_mean(s: Seq<u64>, i: int, w: int) -> int {
    sum_u64(s.subrange(i, i + w)) / w
}

impl MarketAnalyzer {
    /// Sliding-window arithmetic mean (flooring) of a cent series.  Empty
    /// when the window is zero or longer than the data; otherwise one mean
    /// per window position.
    pub fn moving_average(data: &Vec<u64>, window_size: usize) -> (r: Vec<u64>)
        ensures
            window_size == 0 || data@.len() < window_size ==> r@.len() == 0,
            0 < window_size <= data@.len() ==> r@.len() == data@.len() - window_size + 1,
            forall|i: int| 0 <= i < r@.len() ==> r@[i] == window_mean(
                data@,
                i,
                window_size as int,
            ),
    {
        let mut r: Vec<u64> = Vec::new();
        if window_size == 0 || data.len() < window_size {
            return r;
        }
        let w = window_size;
        let count = data.len() - w + 1;
        let mut i: usize = 0;
        while i < count
            invariant
                0 < w <= data@.len(),
                data@.len() <= usize::MAX,
                count == data@.len() - w + 1,
                i <= count,
                r@.len() == i,
                forall|k: int| 0 <= k < i ==> r@[k] == window_mean(data@, k, w as int),
            decreases count - i,
        {
            let mut acc: u128 = 0;
            let mut j: usize = 0;
            while j < w
                invariant
                    0 < w <= data@.len(),
                    data@.len() <= usize::MAX,
                    i + w <= data@.len(),
                    j <= w,
                    acc == sum_u64(data@.subrange(i as int, i as int + j as int)),
                    acc <= (j as int) * (u64::MAX as int),
                decreases w - j,
            {
                proof {
                    assert(data@.subrange(i as int, i as int + j as int + 1).drop_last()
                        =~= data@.subrange(i as int, i as int + j as int));
                    assert((j as int) * (u64::MAX as int) + (u64::MAX as int)
                        == (j as int + 1) * (u64::MAX as int)) by (nonlinear_arith);
                    assert((j as int + 1) * (u64::MAX as int) <= (w as int) * (u64::MAX as int))
                        by (nonlinear_arith)
                        requires j as int + 1 <= w as int;
                    assert((w as int) * (u64::MAX as int) < u128::MAX as int) by (nonlinear_arith)
                        requires w as int <= u64::MAX as int;
                }
                acc = acc + data[i + j] as u128;
                j = j + 1;
            }
            let mean = acc / (w as u128);
            proof {
                let win = data@.subrange(i as int, i as int + w as int);
                lemma_sum_u64_bounds(win, u64::MAX as int);
                assert(sum_u64(win) / (w as int) <= u64::MAX as int) by (nonlinear_arith)
                    requires
                        0 < w as int,
                        0 <= sum_u64(win) <= (w as int) * (u64::MAX as int),
                ;
            }
            r.push(mean as u64);
            i = i + 1;
        }
        r
    }
}

/// Sum of the upward steps between consecutive points of a series.
pub open spec fn gains_of(s: Seq<u64>) -> int
    decreases s.len(),
{
    if s.len() <= 1 {
        0
    } else {
        gains_of(s.drop_last()) + if s[s.len() - 1] > s[s.len() - 2] {
            s[s.len() - 1] - s[s.len() - 2]
        } else {
            0
        }
    }
}

/// Sum of the magnitudes of the downward steps between consecutive points.
pub open spec fn losses_of(s: Seq<u64>) -> int
    decreases s.len(),
{
    if s.len() <= 1 {
        0
    } else {
        losses_of(s.drop_last()) + if s[s.len() - 1] < s[s.len() - 2] {
            s[s.len() - 2] - s[s.len() - 1]
        } else {
            0
        }
    }
}

/// Relative strength index of a series, in whole points: 0 for fewer than
/// two points, the neutral 50 for a flat series, else the flooring
/// percentage of total gains in total movement.
pub open spec fn spec_rsi(s: Seq<u64>) -> int {
    if s.len() < 2 {
        0
    } else if gains_of(s) + losses_of(s) == 0 {
        50
    } else {
        100 * gains_of(s) / (gains_of(s) + losses_of(s))
    }
}

proof fn lemma_gains_losses_nonneg(s: Seq<u64>)
    ensures
        0 <= gains_of(s),
        0 <= losses_of(s),
    decreases s.len(),
{
    if s.len() > 1 {
        lemma_gains_losses_nonneg(s.drop_last());
    }
}

impl MarketAnalyzer {
    /// Relative strength index over a series of representative prices.
    /// Always within `[0, 100]`.
    pub fn compute_rsi(avg_prices: &Vec<u64>) -> (r: u64)
        requires
            forall|i: int| 0 <= i < avg_prices@.len()
                ==> #[trigger] avg_prices@[i] <= MAX_PRICE_CENTS,
        ensures
            r == spec_rsi(avg_prices@),
            r <= 100,
    {
        let n = avg_prices.len();
        if n < 2 {
            return 0;
        }
        let mut gains: u128 = 0;
        let mut losses: u128 = 0;
        let mut i: usize = 1;
        while i < n
            invariant
                forall|k: int| 0 <= k < avg_prices@.len()
                    ==> #[trigger] avg_prices@[k] <= MAX_PRICE_CENTS,
                n == avg_prices@.len(),
                1 <= i <= n,
                gains == gains_of(avg_prices@.take(i as int)),
                losses == losses_of(avg_prices@.take(i as int)),
                gains + losses <= (i as int) * (MAX_PRICE_CENTS as int),
            decreases n - i,
        {
            proof {
                assert(avg_prices@.take(i as int + 1).drop_last()
                    =~= avg_prices@.take(i as int));
                assert((i as int) * (MAX_PRICE_CENTS as int) + (MAX_PRICE_CENTS as int)
                    == (i as int + 1) * (MAX_PRICE_CENTS as int)) by (nonlinear_arith);
                assert((i as int + 1) * (MAX_PRICE_CENTS as int) < u128::MAX as int)
                    by (nonlinear_arith)
                    requires i as int + 1 <= u64::MAX as int;
            }
            let prev = avg_prices[i - 1];
            let cur = avg_prices[i];
            if cur > prev {
                gains = gains + (cur - prev) as u128;
            } else if cur < prev {
                losses = losses + (prev - cur) as u128;
            }
            i = i + 1;
        }
        proof {
            assert(avg_prices@.take(n as int) =~= avg_prices@);
            lemma_gains_losses_nonneg(avg_prices@);
            assert((n as int) * (MAX_PRICE_CENTS as int) <= (u64::MAX as int)
                * (MAX_PRICE_CENTS as int)) by (nonlinear_arith)
                requires n as int <= u64::MAX as int;
        }
        if gains + losses == 0 {
            return 50;
        }
        let total = gains + losses;
        proof {
            assert(100 * (gains as int) < u128::MAX as int) by (nonlinear_arith)
                requires 0 <= gains as int <= (u64::MAX as int) * (MAX_PRICE_CENTS as int);
        }
        let r128 = 100 * gains / total;
        proof {
            assert((100 * (gains as int)) / (total as int) <= 100) by (nonlinear_arith)
                requires 0 < total as int, 0 <= gains as int <= total as int;
        }
        r128 as u64
    }
}

/// Total price-change count over a set of lifecycle records.
pub open spec fn sum_changes(s: Seq<OfferLifecycle>) -> int
    decreases s.len(),
{
    if s.len() == 0 {
        0
    } else {
        sum_changes(s.drop_last()) + s.last().price_changes
    }
}

/// Average price changes per tracked identity, in hundredths, rounded half
/// up; zero for an empty input.
pub open spec fn spec_frequency(s: Seq<OfferLifecycle>) -> int {
    if s.len() == 0 {
        0
    } else {
        (200 * sum_changes(s) + s.len()) / (2 * s.len() as int)
    }
}

proof fn lemma_sum_changes_bounds(s: Seq<OfferLifecycle>)
    requires
        forall|i: int| 0 <= i < s.len() ==> #[trigger] s[i].price_changes <= MAX_BATCH,
    ensures
        0 <= sum_changes(s) <= s.len() * (MAX_BATCH as int),
    decreases s.len(),
{
    if s.len() > 0 {
        lemma_sum_changes_bounds(s.drop_last());
        assert((s.len() - 1) * (MAX_BATCH as int) + (MAX_BATCH as int)
            == s.len() * (MAX_BATCH as int)) by (nonlinear_arith);
    }
}

impl MarketAnalyzer {
    /// Frequency of price changes across the records, in hundredths of a
    /// change per record.
    pub fn price_change_frequency(offers: &Vec<OfferLifecycle>) -> (r: u64)
        requires
            wf_lifecycles(offers@),
        ensures
            r == spec_frequency(offers@),
    {
        let n = offers.len();
        if n == 0 {
            return 0;
        }
        let mut total: u64 = 0;
        let mut i: usize = 0;
        while i < n
            invariant
                wf_lifecycles(offers@),
                n == offers@.len(),
                i <= n,
                total == sum_changes(offers@.take(i as int)),
                total <= (i as int) * (MAX_BATCH as int),
            decreases n - i,
        {
            proof {
                assert(offers@.take(i as int + 1).drop_last() =~= offers@.take(i as int));
                assert((i as int) * (MAX_BATCH as int) + (MAX_BATCH as int)
                    == (i as int + 1) * (MAX_BATCH as int)) by (nonlinear_arith);
                assert((i as int + 1) * (MAX_BATCH as int) <= (MAX_BATCH as int)
                    * (MAX_BATCH as int)) by (nonlinear_arith)
                    requires i as int + 1 <= MAX_BATCH as int;
            }
            total = total + offers[i].price_changes;
            i = i + 1;
        }
        proof {
            assert(offers@.take(n as int) =~= offers@);
            lemma_sum_changes_bounds(offers@);
            assert((n as int) * (MAX_BATCH as int) <= (MAX_BATCH as int) * (MAX_BATCH as int))
                by (nonlinear_arith)
                requires n as int <= MAX_BATCH as int;
        }
        (200 * total + n as u64) / (2 * n as u64)
    }
}

/// The prices (in cents) of the records whose price falls into `pr`, in
/// record order.
pub open spec fn prices_in_range(recs: Seq<OfferLifecycle>, pr: PriceRange) -> Seq<u64>
    decreases recs.len(),
{
    if recs.len() == 0 {
        Seq::empty()
    } else {
        let prefix = prices_in_range(recs.drop_last(), pr);
        if spec_default_range(recs.last().price_cents) == pr {
            prefix.push(recs.last().price_cents)
        } else {
            prefix
        }
    }
}

/// The lifespans (seconds between first and last observation) of the records
/// whose price falls into `pr`, in record order.
pub open spec fn lifespans_in_range(recs: Seq<OfferLifecycle>, pr: PriceRange) -> Seq<u64>
    decreases recs.len(),
{
    if recs.len() == 0 {
        Seq::empty()
    } else {
        let prefix = lifespans_in_range(recs.drop_last(), pr);
        if spec_default_range(recs.last().price_cents) == pr {
            prefix.push((recs.last().last_seen - recs.last().first_seen) as u64)
        } else {
            prefix
        }
    }
}

/// How many records fall into `pr`.
pub open spec fn range_count(recs: Seq<OfferLifecycle>, pr: PriceRange) -> int {
    prices_in_range(recs, pr).len() as int
}

/// `m` holds an entry for the bucket `pr`.
pub open spec fn map_has_range(m: Seq<(PriceRange, u64)>, pr: PriceRange) -> bool {
    exists|k: int| 0 <= k < m.len() && m[k].0 == pr
}

/// The keys of `m` are pairwise distinct buckets.
pub open spec fn distinct_ranges(m: Seq<(PriceRange, u64)>) -> bool {
    forall|a: int, b: int| 0 <= a < b < m.len() ==> (#[trigger] m[a]).0 != (#[trigger] m[b]).0
}

/// Per-bucket projections of a well-formed record set: equal counts of
/// prices and lifespans, both bounded, with every element within the global
/// limits.
pub proof fn lemma_range_seqs(recs: Seq<OfferLifecycle>, pr: PriceRange)
    requires
        forall|i: int| 0 <= i < recs.len() ==> crate::model::wf_lifecycle(#[trigger] recs[i]),
    ensures
        prices_in_range(recs, pr).len() == lifespans_in_range(recs, pr).len(),
        prices_in_range(recs, pr).len() <= recs.len(),
        forall|i: int| 0 <= i < prices_in_range(recs, pr).len()
            ==> #[trigger] prices_in_range(recs, pr)[i] <= MAX_PRICE_CENTS,
        forall|i: int| 0 <= i < lifespans_in_range(recs, pr).len()
            ==> #[trigger] lifespans_in_range(recs, pr)[i] <= 2 * MAX_TS,
    decreases recs.len(),
{
    if recs.len() > 0 {
        lemma_range_seqs(recs.drop_last(), pr);
    }
}

/// Sum of a cent vector, exactly.
pub(crate) fn sum_vec(v: &Vec<u64>) -> (s: u128)
    ensures
        s == sum_u64(v@),
{
    let n = v.len();
    let mut s: u128 = 0;
    let mut i: usize = 0;
    while i < n
        invariant
            n == v@.len() <= usize::MAX,
            i <= n,
            s == sum_u64(v@.take(i as int)),
            s <= (i as int) * (u64::MAX as int),
        decreases n - i,
    {
        proof {
            assert(v@.take(i as int + 1).drop_last() =~= v@.take(i as int));
            assert((i as int) * (u64::MAX as int) + (u64::MAX as int)
                == (i as int + 1) * (u64::MAX as int)) by (nonlinear_arith);
            assert((i as int + 1) * (u64::MAX as int) < u128::MAX as int) by (nonlinear_arith)
                requires i as int + 1 <= u64::MAX as int;
        }
        s = s + v[i] as u128;
        i = i + 1;
    }
    proof {
        assert(v@.take(n as int) =~= v@);
    }
    s
}

/// Flooring mean of a non-empty cent vector.
pub(crate) fn mean_of(v: &Vec<u64>) -> (m: u64)
    requires
        v@.len() > 0,
    ensures
        m == sum_u64(v@) / v@.len() as int,
{
    let s = sum_vec(v);
    let n = v.len();
    proof {
        lemma_sum_u64_bounds(v@, u64::MAX as int);
        assert(sum_u64(v@) / (n as int) <= u64::MAX as int) by (nonlinear_arith)
            requires
                0 < n as int,
                0 <= sum_u64(v@) <= (n as int) * (u64::MAX as int),
        ;
    }
    (s / n as u128) as u64
}

/// The distinct buckets of a record set, in order of first appearance.
fn collect_ranges(offers: &Vec<OfferLifecycle>) -> (rs: Vec<PriceRange>)
    requires
        wf_lifecycles(offers@),
    ensures
        forall|a: int, b: int| 0 <= a < b < rs@.len() ==> rs@[a] != rs@[b],
        forall|k: int| 0 <= k < rs@.len() ==> range_count(offers@, #[trigger] rs@[k]) > 0,
        forall|pr: PriceRange| range_count(offers@, pr) > 0 ==> rs@.contains(pr),
        rs@.len() <= offers@.len(),
{
    let n = offers.len();
    let mut rs: Vec<PriceRange> = Vec::new();
    let mut i: usize = 0;
    while i < n
        invariant
            wf_lifecycles(offers@),
            n == offers@.len(),
            i <= n,
            forall|a: int, b: int| 0 <= a < b < rs@.len() ==> rs@[a] != rs@[b],
            forall|k: int| 0 <= k < rs@.len()
                ==> range_count(offers@.take(i as int), #[trigger] rs@[k]) > 0,
            forall|pr: PriceRange| range_count(offers@.take(i as int), pr) > 0
                ==> rs@.contains(pr),
            rs@.len() <= i,
        decreases n - i,
    {
        let ghost pre = rs@;
        proof {
            assert(offers@.take(i as int + 1).drop_last() =~= offers@.take(i as int));
        }
        let r = MarketAnalyzer::get_price_range(offers[i].price_cents);
        let mut found = false;
        let mut k: usize = 0;
        let m = rs.len();
        while k < m
            invariant
                m == rs@.len(),
                k <= m,
                found <==> exists|t: int| 0 <= t < k && rs@[t] == r,
            decreases m - k,
        {
            if rs[k] == r {
                found = true;
            }
            k = k + 1;
        }
        if !found {
            rs.push(r);
        }
        proof {
            assert(rs@.contains(r)) by {
                if found {
                    let t = choose|t: int| 0 <= t < pre.len() && pre[t] == r;
                    assert(rs@[t] == r);
                } else {
                    assert(rs@[rs@.len() - 1] == r);
                }
            }
            assert forall|pr: PriceRange| range_count(offers@.take(i as int + 1), pr) > 0
                implies rs@.contains(pr) by {
                if pr != r {
                    assert(range_count(offers@.take(i as int), pr) > 0);
                    assert(pre.contains(pr));
                    let t = choose|t: int| 0 <= t < pre.len() && pre[t] == pr;
                    assert(0 <= t < rs@.len());
                    assert(rs@[t] == pre[t]);
                    assert(rs@.contains(pr));
                }
            }
            assert forall|k2: int| 0 <= k2 < rs@.len()
                implies range_count(offers@.take(i as int + 1), #[trigger] rs@[k2]) > 0 by {
                if k2 < pre.len() {
                    assert(range_count(offers@.take(i as int), rs@[k2]) > 0);
                }
            }
        }
        i = i + 1;
    }
    proof {
        assert(offers@.take(n as int) =~= offers@);
    }
    rs
}

/// The prices of the records falling into `pr`, as a vector.
fn collect_prices(offers: &Vec<OfferLifecycle>, pr: PriceRange) -> (v: Vec<u64>)
    requires
        wf_lifecycles(offers@),
    ensures
        v@ == prices_in_range(offers@, pr),
{
    let n = offers.len();
    let mut v: Vec<u64> = Vec::new();
    let mut i: usize = 0;
    while i < n
        invariant
            wf_lifecycles(offers@),
            n == offers@.len(),
            i <= n,
            v@ == prices_in_range(offers@.take(i as int), pr),
        decreases n - i,
    {
        proof {
            assert(offers@.take(i as int + 1).drop_last() =~= offers@.take(i as int));
        }
        let r = MarketAnalyzer::get_price_range(offers[i].price_cents);
        if r == pr {
            v.push(offers[i].price_cents);
        }
        i = i + 1;
    }
    proof {
        assert(offers@.take(n as int) =~= offers@);
    }
    v
}

/// The lifespans of the records falling into `pr`, as a vector.
fn collect_lifespans(offers: &Vec<OfferLifecycle>, pr: PriceRange) -> (v: Vec<u64>)
    requires
        wf_lifecycles(offers@),
    ensures
        v@ == lifespans_in_range(offers@, pr),
{
    let n = offers.len();
    let mut v: Vec<u64> = Vec::new();
    let mut i: usize = 0;
    while i < n
        invariant
            wf_lifecycles(offers@),
            n == offers@.len(),
            i <= n,
            v@ == lifespans_in_range(offers@.take(i as int), pr),
        decreases n - i,
    {
        proof {
            assert(offers@.take(i as int + 1).drop_last() =~= offers@.take(i as int));
        }
        let r = MarketAnalyzer::get_price_range(offers[i].price_cents);
        if r == pr {
            v.push((offers[i].last_seen - offers[i].first_seen) as u64);
        }
        i = i + 1;
    }
    proof {
        assert(offers@.take(n as int) =~= offers@);
    }
    v
}

/// Mean lifespan (flooring) of the records in bucket `pr`.
pub open spec fn spec_mean_lifespan(recs: Seq<OfferLifecycle>, pr: PriceRange) -> int {
    sum_u64(lifespans_in_range(recs, pr)) / lifespans_in_range(recs, pr).len() as int
}

impl MarketAnalyzer {
    /// Average lifespan (seconds between first and last observation) of the
    /// records in each price bucket.  One entry per bucket that holds a
    /// record; buckets without records get no entry.
    pub fn disappearance_speed(offers: &Vec<OfferLifecycle>) -> (m: Vec<(PriceRange, u64)>)
        requires
            wf_lifecycles(offers@),
        ensures
            distinct_ranges(m@),
            forall|k: int| 0 <= k < m@.len() ==> range_count(offers@, (#[trigger] m@[k]).0) > 0
                && m@[k].1 == spec_mean_lifespan(offers@, m@[k].0),
            forall|pr: PriceRange| range_count(offers@, pr) > 0 ==> map_has_range(m@, pr),
    {
        let rs = collect_ranges(offers);
        let n = rs.len();
        let mut m: Vec<(PriceRange, u64)> = Vec::new();
        let mut i: usize = 0;
        while i < n
            invariant
                wf_lifecycles(offers@),
                n == rs@.len(),
                i <= n,
                m@.len() == i,
                forall|a: int, b: int| 0 <= a < b < rs@.len() ==> rs@[a] != rs@[b],
                forall|k: int| 0 <= k < rs@.len()
                    ==> range_count(offers@, #[trigger] rs@[k]) > 0,
                forall|k: int| 0 <= k < i ==> (#[trigger] m@[k]).0 == rs@[k],
                forall|k: int| 0 <= k < i ==> (#[trigger] m@[k]).1
                    == spec_mean_lifespan(offers@, m@[k].0),
            decreases n - i,
        {
            let pr = rs[i];
            let v = collect_lifespans(offers, pr);
            proof {
                lemma_range_seqs(offers@, pr);
            }
            let avg = mean_of(&v);
            m.push((pr, avg));
            i = i + 1;
        }
        proof {
            assert forall|pr: PriceRange| range_count(offers@, pr) > 0
                implies map_has_range(m@, pr) by {
                assert(rs@.contains(pr));
                let t = choose|t: int| 0 <= t < rs@.len() && rs@[t] == pr;
                assert(m@[t].0 == pr);
            }
        }
        m
    }
}

/// Sum of squared deviations of each element from the mean, scaled by
/// `n * n` to stay in integers: each term is `(n * p - s) ^ 2` where `s` is
/// the sum and `n` the count of the whole series.
pub open spec fn sum_sq_dev(ps: Seq<u64>, n: int, s: int) -> int
    decreases ps.len(),
{
    if ps.len() == 0 {
        0
    } else {
        sum_sq_dev(ps.drop_last(), n, s) + (n * ps.last() - s) * (n * ps.last() - s)
    }
}

/// Flooring population variance of a series: the scaled squared-deviation
/// sum divided by `n ^ 3` (one factor of `n` for the mean of the squares,
/// two for the scaling of each term).
pub open spec fn spec_variance_floor(ps: Seq<u64>) -> int {
    sum_sq_dev(ps, ps.len() as int, sum_u64(ps)) / (ps.len() * ps.len() * ps.len()) as int
}

/// `r` is the flooring square root of `v`.
pub open spec fn is_floor_sqrt(v: int, r: int) -> bool {
    0 <= r && r * r <= v && v < (r + 1) * (r + 1)
}

/// Flooring population standard deviation (in cents) of a non-empty,
/// bounded cent series.
pub(crate) fn stddev_of(v: &Vec<u64>) -> (sd: u64)
    requires
        0 < v@.len() <= MAX_BATCH,
        forall|i: int| 0 <= i < v@.len() ==> #[trigger] v@[i] <= MAX_PRICE_CENTS,
    ensures
        is_floor_sqrt(spec_variance_floor(v@), sd as int),
{
    let n = v.len();
    let s = sum_vec(v);
    let ghost bnd: int = 4_000_000_000_000_000;
    proof {
        lemma_sum_u64_bounds(v@, MAX_PRICE_CENTS as int);
        assert(sum_u64(v@) <= bnd) by (nonlinear_arith)
            requires
                sum_u64(v@) <= v@.len() * 400_000_000_000,
                v@.len() <= 10_000,
                bnd == 4_000_000_000_000_000int,
        ;
    }
    let mut acc: u128 = 0;
    let mut i: usize = 0;
    while i < n
        invariant
            n == v@.len(),
            0 < n <= MAX_BATCH,
            forall|k: int| 0 <= k < v@.len() ==> #[trigger] v@[k] <= MAX_PRICE_CENTS,
            i <= n,
            s == sum_u64(v@),
            0 <= s <= bnd,
            bnd == 4_000_000_000_000_000int,
            acc == sum_sq_dev(v@.take(i as int), n as int, s as int),
            acc <= (i as int) * (bnd * bnd),
        decreases n - i,
    {
        proof {
            assert(v@.take(i as int + 1).drop_last() =~= v@.take(i as int));
            assert(0 <= (n as int) * (v@[i as int] as int) <= bnd) by (nonlinear_arith)
                requires
                    0 < n as int <= 10_000,
                    0 <= v@[i as int] as int <= 400_000_000_000,
                    bnd == 4_000_000_000_000_000int,
            ;
        }
        let scaled: i128 = (n as i128) * (v[i] as i128);
        let term: i128 = scaled - (s as i128);
        let ghost t: int = term as int;
        proof {
            assert(0 <= t * t <= bnd * bnd) by (nonlinear_arith)
                requires -bnd <= t <= bnd, 0 <= bnd;
            assert(bnd * bnd == 16_000_000_000_000_000_000_000_000_000_000int)
                by (nonlinear_arith)
                requires bnd == 4_000_000_000_000_000int;
            assert((i as int) * (bnd * bnd) + (bnd * bnd) == (i as int + 1) * (bnd * bnd))
                by (nonlinear_arith);
            assert((i as int + 1) * (bnd * bnd)
                <= 10_000 * 16_000_000_000_000_000_000_000_000_000_000int) by (nonlinear_arith)
                requires
                    i as int + 1 <= 10_000,
                    bnd * bnd == 16_000_000_000_000_000_000_000_000_000_000int,
            ;
        }
        let sq: i128 = term * term;
        acc = acc + sq as u128;
        i = i + 1;
    }
    proof {
        assert(v@.take(n as int) =~= v@);
        assert((n as int) * (n as int) <= 100_000_000) by (nonlinear_arith)
            requires 0 < n as int <= 10_000;
        assert((n as int) * (n as int) * (n as int) <= 1_000_000_000_000
            && 0 < (n as int) * (n as int) * (n as int)) by (nonlinear_arith)
            requires 0 < n as int <= 10_000;
    }
    let n128 = n as u128;
    let cube = n128 * n128 * n128;
    let var = acc / cube;
    isqrt_u128(var)
}

impl MarketAnalyzer {
    /// Population standard deviation of the prices (in cents) of the records
    /// in each price bucket.  One entry per bucket that holds a record.
    pub fn price_volatility(offers: &Vec<OfferLifecycle>) -> (m: Vec<(PriceRange, u64)>)
        requires
            wf_lifecycles(offers@),
        ensures
            distinct_ranges(m@),
            forall|k: int| 0 <= k < m@.len() ==> range_count(offers@, (#[trigger] m@[k]).0) > 0
                && is_floor_sqrt(
                    spec_variance_floor(prices_in_range(offers@, m@[k].0)),
                    m@[k].1 as int,
                ),
            forall|pr: PriceRange| range_count(offers@, pr) > 0 ==> map_has_range(m@, pr),
    {
        let rs = collect_ranges(offers);
        let n = rs.len();
        let mut m: Vec<(PriceRange, u64)> = Vec::new();
        let mut i: usize = 0;
        while i < n
            invariant
                wf_lifecycles(offers@),
                n == rs@.len(),
                i <= n,
                m@.len() == i,
                forall|a: int, b: int| 0 <= a < b < rs@.len() ==> rs@[a] != rs@[b],
                forall|k: int| 0 <= k < rs@.len()
                    ==> range_count(offers@, #[trigger] rs@[k]) > 0,
                forall|k: int| 0 <= k < i ==> (#[trigger] m@[k]).0 == rs@[k],
                forall|k: int| 0 <= k < i ==> is_floor_sqrt(
                    spec_variance_floor(prices_in_range(offers@, (#[trigger] m@[k]).0)),
                    m@[k].1 as int,
                ),
            decreases n - i,
        {
            let pr = rs[i];
            let v = collect_prices(offers, pr);
            proof {
                lemma_range_seqs(offers@, pr);
                assert(offers@.len() <= MAX_BATCH);
            }
            let sd = stddev_of(&v);
            m.push((pr, sd));
            i = i + 1;
        }
        proof {
            assert forall|pr: PriceRange| range_count(offers@, pr) > 0
                implies map_has_range(m@, pr) by {
                assert(rs@.contains(pr));
                let t = choose|t: int| 0 <= t < rs@.len() && rs@[t] == pr;
                assert(m@[t].0 == pr);
            }
        }
        m
    }
}

/// Median of a sorted series of second counts: the middle element for odd
/// length, the value halfway between the two middle elements (flooring) for
/// even length.
pub open spec fn spec_median_sorted(ds: Seq<u64>) -> int
    recommends
        ds.len() > 0,
{
    let mid = ds.len() as int / 2;
    if ds.len() % 2 == 1 {
        ds[mid] as int
    } else {
        ds[mid - 1] + (ds[mid] - ds[mid - 1]) / 2
    }
}

/// Median lifespan of the records in bucket `pr`: the median of the sorted
/// lifespan list.
pub open spec fn spec_median_lifespan(recs: Seq<OfferLifecycle>, pr: PriceRange) -> int {
    spec_median_sorted(lifespans_in_range(recs, pr).sort_by(u64_le()))
}

impl MarketAnalyzer {
    /// Median lifespan (seconds) of the records in each price bucket,
    /// interpolating halfway between the two middle values for even-sized
    /// buckets.  One entry per bucket that holds a record.
    pub fn lifespan_median(offers: &Vec<OfferLifecycle>) -> (m: Vec<(PriceRange, u64)>)
        requires
            wf_lifecycles(offers@),
        ensures
            distinct_ranges(m@),
            forall|k: int| 0 <= k < m@.len() ==> range_count(offers@, (#[trigger] m@[k]).0) > 0
                && m@[k].1 == spec_median_lifespan(offers@, m@[k].0),
            forall|pr: PriceRange| range_count(offers@, pr) > 0 ==> map_has_range(m@, pr),
    {
        let rs = collect_ranges(offers);
        let n = rs.len();
        let mut m: Vec<(PriceRange, u64)> = Vec::new();
        let mut i: usize = 0;
        while i < n
            invariant
                wf_lifecycles(offers@),
                n == rs@.len(),
                i <= n,
                m@.len() == i,
                forall|a: int, b: int| 0 <= a < b < rs@.len() ==> rs@[a] != rs@[b],
                forall|k: int| 0 <= k < rs@.len()
                    ==> range_count(offers@, #[trigger] rs@[k]) > 0,
                forall|k: int| 0 <= k < i ==> (#[trigger] m@[k]).0 == rs@[k],
                forall|k: int| 0 <= k < i ==> (#[trigger] m@[k]).1
                    == spec_median_lifespan(offers@, m@[k].0),
            decreases n - i,
        {
            let pr = rs[i];
            let mut v = collect_lifespans(offers, pr);
            proof {
                lemma_range_seqs(offers@, pr);
            }
            sort_u64(&mut v);
            let len = v.len();
            let mid = len / 2;
            let med: u64 = if len % 2 == 1 {
                v[mid]
            } else {
                proof {
                    assert(u64_le()(v@[mid as int - 1], v@[mid as int]));
                }
                let d1 = v[mid - 1];
                let d2 = v[mid];
                d1 + (d2 - d1) / 2
            };
            m.push((pr, med));
            i = i + 1;
        }
        proof {
            assert forall|pr: PriceRange| range_count(offers@, pr) > 0
                implies map_has_range(m@, pr) by {
                assert(rs@.contains(pr));
                let t = choose|t: int| 0 <= t < rs@.len() && rs@[t] == pr;
                assert(m@[t].0 == pr);
            }
        }
        m
    }
}

/// Sum of the products of the scaled deviations of two equally long series:
/// each term is `(n * x - sx) * (n * y - sy)`.
pub open spec fn sum_cross_dev(xs: Seq<u64>, ys: Seq<u64>, n: int, sx: int, sy: int) -> int
    decreases xs.len(),
{
    if xs.len() == 0 || ys.len() == 0 {
        0
    } else {
        sum_cross_dev(xs.drop_last(), ys.drop_last(), n, sx, sy)
            + (n * xs.last() - sx) * (n * ys.last() - sy)
    }
}

/// Scaled covariance numerator of two series.
pub open spec fn corr_num(xs: Seq<u64>, ys: Seq<u64>) -> int {
    sum_cross_dev(xs, ys, xs.len() as int, sum_u64(xs), sum_u64(ys))
}

/// Scaled squared-deviation sum of one series (the `n^2`-scaled population
/// variance numerator).
pub open spec fn corr_var(xs: Seq<u64>) -> int {
    sum_sq_dev(xs, xs.len() as int, sum_u64(xs))
}

/// A squared-deviation sum is never negative.
proof fn lemma_sum_sq_dev_nonneg(ps: Seq<u64>, n: int, s: int)
    ensures
        0 <= sum_sq_dev(ps, n, s),
    decreases ps.len(),
{
    if ps.len() > 0 {
        lemma_sum_sq_dev_nonneg(ps.drop_last(), n, s);
        let t = n * ps.last() - s;
        assert(0 <= t * t) by (nonlinear_arith);
    }
}

/// Cauchy-Schwarz for the scaled deviation sums: the squared cross sum
/// never exceeds the product of the two squared-deviation sums.
pub proof fn lemma_cauchy_schwarz(xs: Seq<u64>, ys: Seq<u64>, n: int, sx: int, sy: int)
    requires
        xs.len() == ys.len(),
    ensures
        sum_cross_dev(xs, ys, n, sx, sy) * sum_cross_dev(xs, ys, n, sx, sy) <= sum_sq_dev(
            xs,
            n,
            sx,
        ) * sum_sq_dev(ys, n, sy),
    decreases xs.len(),
{
    if xs.len() > 0 {
        let a = n * xs.last() - sx;
        let b = n * ys.last() - sy;
        let pa = sum_sq_dev(xs.drop_last(), n, sx);
        let pb = sum_sq_dev(ys.drop_last(), n, sy);
        let pc = sum_cross_dev(xs.drop_last(), ys.drop_last(), n, sx, sy);
        lemma_cauchy_schwarz(xs.drop_last(), ys.drop_last(), n, sx, sy);
        lemma_sum_sq_dev_nonneg(xs.drop_last(), n, sx);
        lemma_sum_sq_dev_nonneg(ys.drop_last(), n, sy);
        crate::numeric::lemma_cauchy_schwarz_step(pa, pb, pc, a, b);
    }
}

/// Exact integer representation of a Pearson correlation coefficient.
///
/// All three fields share the scale factor `n^3`, so the represented value
/// is `covariance / sqrt(variance_x * variance_y)` with the factors
/// cancelled: exactly the Pearson coefficient of the two series.
#[derive(Clone, Copy, PartialEq, Eq, Structural, Debug)]
pub struct Correlation {
    pub covariance: i128,
    pub variance_x: u128,
    pub variance_y: u128,
}

/// Bounds every correlation built from a valid batch satisfies; they keep
/// the per-mille conversion within `u128`.
pub open spec fn wf_correlation(c: Correlation) -> bool {
    &&& -160_000_000_000_000_000_000_000_000_000_000_000 <= c.covariance
        <= 160_000_000_000_000_000_000_000_000_000_000_000
    &&& 1 <= c.variance_x <= 160_000_000_000_000_000_000_000_000_000_000_000
    &&& 1 <= c.variance_y <= 160_000_000_000_000_000_000_000_000_000_000_000
    &&& (c.covariance as int) * (c.covariance as int) <= (c.variance_x as int) * (
    c.variance_y as int)
}

/// The represented coefficient in thousandths, given the flooring square
/// root `d` of the variance product: the magnitude scaled by 1000, divided
/// flooring, with the sign of the covariance.
pub open spec fn spec_corr_milli(cov: int, d: int) -> int
    recommends
        d > 0,
{
    let mag = if cov >= 0 { cov } else { -cov };
    let q = 1000 * mag / d;
    if cov >= 0 {
        q
    } else {
        -q
    }
}

/// The flooring square root is unique.
pub proof fn lemma_floor_sqrt_unique(v: int, r1: int, r2: int)
    requires
        is_floor_sqrt(v, r1),
        is_floor_sqrt(v, r2),
    ensures
        r1 == r2,
{
    assert(r1 == r2) by (nonlinear_arith)
        requires
            0 <= r1 && r1 * r1 <= v && v < (r1 + 1) * (r1 + 1),
            0 <= r2 && r2 * r2 <= v && v < (r2 + 1) * (r2 + 1),
    ;
}

/// A series correlated with itself has its covariance equal to its
/// variance: the represented coefficient is exactly one.
pub proof fn lemma_self_cross_dev(xs: Seq<u64>, n: int, s: int)
    ensures
        sum_cross_dev(xs, xs, n, s, s) == sum_sq_dev(xs, n, s),
    decreases xs.len(),
{
    if xs.len() > 0 {
        lemma_self_cross_dev(xs.drop_last(), n, s);
    }
}

/// With covariance and both variances equal to `v >= 1`, the per-mille
/// coefficient is exactly 1000.
pub proof fn lemma_unit_correlation(v: int, d: int)
    requires
        1 <= v,
        is_floor_sqrt(v * v, d),
    ensures
        spec_corr_milli(v, d) == 1000,
{
    assert(0 <= v * v) by (nonlinear_arith)
        requires 0 <= v;
    crate::numeric::lemma_isqrt_of_square(d, v);
    assert(1000 * v / v == 1000) by (nonlinear_arith)
        requires 1 <= v;
    assert(spec_corr_milli(v, d) == 1000);
}

/// Law: a non-constant series correlated with itself is perfectly
/// correlated.  The representation `compute_correlation` returns for
/// `(x, x)` has its covariance equal to both variances, so its per-mille
/// coefficient is exactly 1000.
pub proof fn lemma_self_correlation(x: Seq<u64>, c: Correlation, d: int)
    requires
        c.covariance == corr_num(x, x),
        c.variance_x == corr_var(x),
        c.variance_y == corr_var(x),
        1 <= c.variance_x,
        is_floor_sqrt((c.variance_x as int) * (c.variance_y as int), d),
    ensures
        spec_corr_milli(c.covariance as int, d) == 1000,
{
    lemma_self_cross_dev(x, x.len() as int, sum_u64(x));
    lemma_unit_correlation(c.variance_x as int, d);
}

/// Scaled squared-deviation sum of a bounded cent vector, exactly.
fn sum_sq_dev_vec(v: &Vec<u64>, s: u128) -> (acc: u128)
    requires
        0 < v@.len() <= MAX_BATCH,
        forall|i: int| 0 <= i < v@.len() ==> #[trigger] v@[i] <= MAX_PRICE_CENTS,
        s == sum_u64(v@),
    ensures
        acc == sum_sq_dev(v@, v@.len() as int, s as int),
        acc <= 160_000_000_000_000_000_000_000_000_000_000_000,
{
    let n = v.len();
    let ghost bnd: int = 4_000_000_000_000_000;
    proof {
        lemma_sum_u64_bounds(v@, MAX_PRICE_CENTS as int);
        assert(sum_u64(v@) <= bnd) by (nonlinear_arith)
            requires
                sum_u64(v@) <= v@.len() * 400_000_000_000,
                v@.len() <= 10_000,
                bnd == 4_000_000_000_000_000int,
        ;
    }
    let mut acc: u128 = 0;
    let mut i: usize = 0;
    while i < n
        invariant
            n == v@.len(),
            0 < n <= MAX_BATCH,
            forall|k: int| 0 <= k < v@.len() ==> #[trigger] v@[k] <= MAX_PRICE_CENTS,
            i <= n,
            s == sum_u64(v@),
            0 <= s <= bnd,
            bnd == 4_000_000_000_000_000int,
            acc == sum_sq_dev(v@.take(i as int), n as int, s as int),
            acc <= (i as int) * (bnd * bnd),
        decreases n - i,
    {
        proof {
            assert(v@.take(i as int + 1).drop_last() =~= v@.take(i as int));
            assert(0 <= (n as int) * (v@[i as int] as int) <= bnd) by (nonlinear_arith)
                requires
                    0 < n as int <= 10_000,
                    0 <= v@[i as int] as int <= 400_000_000_000,
                    bnd == 4_000_000_000_000_000int,
            ;
        }
        let scaled: i128 = (n as i128) * (v[i] as i128);
        let term: i128 = scaled - (s as i128);
        let ghost t: int = term as int;
        proof {
            assert(0 <= t * t <= bnd * bnd) by (nonlinear_arith)
                requires -bnd <= t <= bnd, 0 <= bnd;
            assert(bnd * bnd == 16_000_000_000_000_000_000_000_000_000_000int)
                by (nonlinear_arith)
                requires bnd == 4_000_000_000_000_000int;
            assert((i as int) * (bnd * bnd) + (bnd * bnd) == (i as int + 1) * (bnd * bnd))
                by (nonlinear_arith);
            assert((i as int + 1) * (bnd * bnd)
                <= 10_000 * 16_000_000_000_000_000_000_000_000_000_000int) by (nonlinear_arith)
                requires
                    i as int + 1 <= 10_000,
                    bnd * bnd == 16_000_000_000_000_000_000_000_000_000_000int,
            ;
        }
        let sq: i128 = term * term;
        acc = acc + sq as u128;
        i = i + 1;
    }
    proof {
        assert(v@.take(n as int) =~= v@);
    }
    acc
}

/// Scaled cross-deviation sum of two equally long bounded cent vectors.
fn sum_cross_dev_vec(x: &Vec<u64>, y: &Vec<u64>, sx: u128, sy: u128) -> (acc: i128)
    requires
        x@.len() == y@.len(),
        0 < x@.len() <= MAX_BATCH,
        forall|i: int| 0 <= i < x@.len() ==> #[trigger] x@[i] <= MAX_PRICE_CENTS,
        forall|i: int| 0 <= i < y@.len() ==> #[trigger] y@[i] <= MAX_PRICE_CENTS,
        sx == sum_u64(x@),
        sy == sum_u64(y@),
    ensures
        acc == sum_cross_dev(x@, y@, x@.len() as int, sx as int, sy as int),
        -160_000_000_000_000_000_000_000_000_000_000_000 <= acc
            <= 160_000_000_000_000_000_000_000_000_000_000_000,
{
    let n = x.len();
    let ghost bnd: int = 4_000_000_000_000_000;
    proof {
        lemma_sum_u64_bounds(x@, MAX_PRICE_CENTS as int);
        lemma_sum_u64_bounds(y@, MAX_PRICE_CENTS as int);
        assert(sum_u64(x@) <= bnd && sum_u64(y@) <= bnd) by (nonlinear_arith)
            requires
                sum_u64(x@) <= x@.len() * 400_000_000_000,
                sum_u64(y@) <= y@.len() * 400_000_000_000,
                x@.len() <= 10_000,
                y@.len() <= 10_000,
                bnd == 4_000_000_000_000_000int,
        ;
    }
    let mut acc: i128 = 0;
    let mut i: usize = 0;
    while i < n
        invariant
            n == x@.len() && n == y@.len(),
            0 < n <= MAX_BATCH,
            forall|k: int| 0 <= k < x@.len() ==> #[trigger] x@[k] <= MAX_PRICE_CENTS,
            forall|k: int| 0 <= k < y@.len() ==> #[trigger] y@[k] <= MAX_PRICE_CENTS,
            i <= n,
            sx == sum_u64(x@) && sy == sum_u64(y@),
            0 <= sx as int <= bnd && 0 <= sy as int <= bnd,
            bnd == 4_000_000_000_000_000int,
            acc == sum_cross_dev(x@.take(i as int), y@.take(i as int), n as int, sx as int,
                sy as int),
            -(i as int) * (bnd * bnd) <= acc as int <= (i as int) * (bnd * bnd),
        decreases n - i,
    {
        proof {
            assert(x@.take(i as int + 1).drop_last() =~= x@.take(i as int));
            assert(y@.take(i as int + 1).drop_last() =~= y@.take(i as int));
            assert(0 <= (n as int) * (x@[i as int] as int) <= bnd
                && 0 <= (n as int) * (y@[i as int] as int) <= bnd) by (nonlinear_arith)
                requires
                    0 < n as int <= 10_000,
                    0 <= x@[i as int] as int <= 400_000_000_000,
                    0 <= y@[i as int] as int <= 400_000_000_000,
                    bnd == 4_000_000_000_000_000int,
            ;
        }
        let tx: i128 = (n as i128) * (x[i] as i128) - (sx as i128);
        let ty: i128 = (n as i128) * (y[i] as i128) - (sy as i128);
        let ghost gx: int = tx as int;
        let ghost gy: int = ty as int;
        proof {
            assert(-(bnd * bnd) <= gx * gy <= bnd * bnd) by (nonlinear_arith)
                requires -bnd <= gx <= bnd, -bnd <= gy <= bnd, 0 <= bnd;
            assert(bnd * bnd == 16_000_000_000_000_000_000_000_000_000_000int)
                by (nonlinear_arith)
                requires bnd == 4_000_000_000_000_000int;
            assert((i as int) * (bnd * bnd) + (bnd * bnd) == (i as int + 1) * (bnd * bnd))
                by (nonlinear_arith);
            assert((i as int + 1) * (bnd * bnd)
                <= 10_000 * 16_000_000_000_000_000_000_000_000_000_000int) by (nonlinear_arith)
                requires
                    i as int + 1 <= 10_000,
                    bnd * bnd == 16_000_000_000_000_000_000_000_000_000_000int,
            ;
        }
        let prod: i128 = tx * ty;
        acc = acc + prod;
        i = i + 1;
    }
    proof {
        assert(x@.take(n as int) =~= x@);
        assert(y@.take(n as int) =~= y@);
    }
    acc
}

impl MarketAnalyzer {
    /// Pearson correlation of two cent series, as its exact integer
    /// representation.  `None` exactly when the lengths differ, the series
    /// are empty, or one series has no variance.
    pub fn compute_correlation(x: &Vec<u64>, y: &Vec<u64>) -> (r: Option<Correlation>)
        requires
            x@.len() <= MAX_BATCH,
            y@.len() <= MAX_BATCH,
            forall|i: int| 0 <= i < x@.len() ==> #[trigger] x@[i] <= MAX_PRICE_CENTS,
            forall|i: int| 0 <= i < y@.len() ==> #[trigger] y@[i] <= MAX_PRICE_CENTS,
        ensures
            r is Some <==> (x@.len() == y@.len() && x@.len() > 0 && corr_var(x@) != 0
                && corr_var(y@) != 0),
            r matches Some(c) ==> c.covariance == corr_num(x@, y@) && c.variance_x == corr_var(
                x@,
            ) && c.variance_y == corr_var(y@) && wf_correlation(c),
    {
        if x.len() != y.len() || x.len() == 0 {
            return None;
        }
        let sx = sum_vec(x);
        let sy = sum_vec(y);
        let vx = sum_sq_dev_vec(x, sx);
        let vy = sum_sq_dev_vec(y, sy);
        if vx == 0 || vy == 0 {
            return None;
        }
        let cov = sum_cross_dev_vec(x, y, sx, sy);
        proof {
            lemma_cauchy_schwarz(x@, y@, x@.len() as int, sx as int, sy as int);
        }
        Some(Correlation { covariance: cov, variance_x: vx, variance_y: vy })
    }
}

impl Correlation {
    /// The represented coefficient in thousandths, flooring in magnitude:
    /// `1000 * covariance / sqrt(variance_x * variance_y)`.  `None` exactly
    /// when the variance product overflows the 128-bit intermediate; always
    /// within `[-1000, 1000]`.
    pub fn milli(&self) -> (r: Option<i64>)
        requires
            wf_correlation(*self),
        ensures
            r is Some <==> (self.variance_x as int) * (self.variance_y as int)
                <= u128::MAX as int,
            r matches Some(m) ==> -1000 <= m <= 1000 && (exists|d: int| is_floor_sqrt(
                (self.variance_x as int) * (self.variance_y as int),
                d,
            ) && m == spec_corr_milli(self.covariance as int, d)),
    {
        let prod = match self.variance_x.checked_mul(self.variance_y) {
            Some(p) => p,
            None => {
                return None;
            },
        };
        let d = isqrt_u128(prod);
        proof {
            assert(1 <= prod as int) by (nonlinear_arith)
                requires
                    prod as int == (self.variance_x as int) * (self.variance_y as int),
                    1 <= self.variance_x as int,
                    1 <= self.variance_y as int,
            ;
            assert(d as int >= 1) by (nonlinear_arith)
                requires
                    1 <= prod as int,
                    (d as int) * (d as int) <= prod as int,
                    (prod as int) < ((d as int + 1) * (d as int + 1)),
            ;
        }
        let mag: u128 = if self.covariance >= 0 {
            self.covariance as u128
        } else {
            (-self.covariance) as u128
        };
        let scaled: u128 = 1000 * mag;
        let q: u128 = scaled / (d as u128);
        proof {
            assert((mag as int) * (mag as int) <= prod as int) by (nonlinear_arith)
                requires
                    mag as int == if self.covariance as int >= 0 {
                        self.covariance as int
                    } else {
                        -(self.covariance as int)
                    },
                    (self.covariance as int) * (self.covariance as int) <= (
                    self.variance_x as int) * (self.variance_y as int),
                    prod as int == (self.variance_x as int) * (self.variance_y as int),
            ;
            assert(mag as int <= d as int) by (nonlinear_arith)
                requires
                    0 <= mag as int,
                    0 <= d as int,
                    (mag as int) * (mag as int) <= prod as int,
                    (prod as int) < ((d as int + 1) * (d as int + 1)),
            ;
            assert(0 <= 1000 * (mag as int) / (d as int) <= 1000) by (nonlinear_arith)
                requires 1 <= d as int, 0 <= mag as int <= d as int;
        }
        let m: i64 = if self.covariance >= 0 {
            q as i64
        } else {
            -(q as i64)
        };
        proof {
            let pi = (self.variance_x as int) * (self.variance_y as int);
            assert(is_floor_sqrt(pi, d as int));
            assert(m as int == spec_corr_milli(self.covariance as int, d as int));
        }
        Some(m)
    }
}

} // verus!
