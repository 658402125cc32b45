//! Per-product statistics, deal classification and the per-cycle analysis
//! orchestrator.

use vstd::prelude::*;
use vstd::string::StringExecFns;
use crate::lifecycle::{build_lifecycle_data, built_records};
use crate::market_indicators::{distinct_ranges, is_floor_sqrt, lemma_floor_sqrt_unique,
    map_has_range, mean_of, prices_in_range, range_count, spec_default_range, spec_frequency,
    spec_mean_lifespan, spec_median_lifespan, spec_rsi, spec_variance_floor, stddev_of,
    MarketAnalyzer, PriceRange};
use crate::model::{valid_batch, ModelConfig, ModelStats, Offer, OfferLifecycle, StatsError,
    MAX_PRICE_CENTS, MAX_TS};
use crate::numeric::{sum_u64, u64_le};
use crate::utils::now_ts;

verus! {

/// Implementation of the offer analyzer: statistics, deal filters and the
/// per-cycle orchestration.
pub struct AnalyzerImpl;

impl AnalyzerImpl {
    pub fn new() -> Self {
        Self
    }
}

/// The strictly positive prices of a batch, in batch order: the population
/// the per-product statistics are computed over.
pub open spec fn positive_prices(offers: Seq<Offer>) -> Seq<u64>
    decreases offers.len(),
{
    if offers.len() == 0 {
        Seq::empty()
    } else {
        let p = positive_prices(offers.drop_last());
        if offers.last().price_cents > 0 {
            p.push(offers.last().price_cents)
        } else {
            p
        }
    }
}

/// The positive prices of a valid batch stay within the batch's bounds.
pub proof fn lemma_positive_prices_bounds(offers: Seq<Offer>)
    requires
        forall|i: int| 0 <= i < offers.len() ==> crate::model::valid_offer(#[trigger] offers[i]),
    ensures
        positive_prices(offers).len() <= offers.len(),
        forall|i: int| 0 <= i < positive_prices(offers).len() ==> #[trigger] positive_prices(
            offers,
        )[i] <= MAX_PRICE_CENTS,
    decreases offers.len(),
{
    if offers.len() > 0 {
        lemma_positive_prices_bounds(offers.drop_last());
    }
}

/// The label a statistics record reports: the first offer's product, or
/// "unknown" for an empty batch.
pub open spec fn stats_model_name(offers: Seq<Offer>) -> Seq<char> {
    if offers.len() == 0 {
        "unknown"@
    } else {
        offers[0].model@
    }
}

/// Flooring mean of the positive prices of a batch.
pub open spec fn spec_avg_price(offers: Seq<Offer>) -> int {
    sum_u64(positive_prices(offers)) / positive_prices(offers).len() as int
}

/// What `calculate_stats` owes its batch: label, flooring mean, flooring
/// population standard deviation, and a clock reading within bounds.
pub open spec fn stats_ok(offers: Seq<Offer>, s: ModelStats) -> bool {
    &&& s.model@ == stats_model_name(offers)
    &&& s.avg_price == spec_avg_price(offers)
    &&& is_floor_sqrt(spec_variance_floor(positive_prices(offers)), s.std_dev as int)
    &&& -MAX_TS <= s.last_updated <= MAX_TS
}

/// Law: the statistics are a pure function of the batch.  Two records
/// computed from the same batch agree on mean, deviation and label (the
/// timestamp records the clock and is exempt).
pub proof fn lemma_stats_idempotent(offers: Seq<Offer>, s1: ModelStats, s2: ModelStats)
    requires
        stats_ok(offers, s1),
        stats_ok(offers, s2),
    ensures
        s1.avg_price == s2.avg_price,
        s1.std_dev == s2.std_dev,
        s1.model@ == s2.model@,
{
    lemma_floor_sqrt_unique(
        spec_variance_floor(positive_prices(offers)),
        s1.std_dev as int,
        s2.std_dev as int,
    );
}

impl AnalyzerImpl {
    /// Mean and population standard deviation (divide by the count) of the
    /// strictly positive prices of the batch, in cents.  A batch without a
    /// single positive price has no statistics: that is the one error.
    pub fn calculate_stats(&self, offers: &Vec<Offer>) -> (r: Result<ModelStats, StatsError>)
        requires
            valid_batch(offers@),
        ensures
            r is Ok <==> positive_prices(offers@).len() > 0,
            r matches Ok(s) ==> stats_ok(offers@, s),
            r matches Err(e) ==> e == StatsError::EmptyInput,
    {
        let n = offers.len();
        let mut prices: Vec<u64> = Vec::new();
        let mut i: usize = 0;
        while i < n
            invariant
                valid_batch(offers@),
                n == offers@.len(),
                i <= n,
                prices@ == positive_prices(offers@.take(i as int)),
            decreases n - i,
        {
            proof {
                assert(offers@.take(i as int + 1).drop_last() =~= offers@.take(i as int));
            }
            if offers[i].price_cents > 0 {
                prices.push(offers[i].price_cents);
            }
            i = i + 1;
        }
        proof {
            assert(offers@.take(n as int) =~= offers@);
            lemma_positive_prices_bounds(offers@);
        }
        if prices.len() == 0 {
            return Err(StatsError::EmptyInput);
        }
        let avg = mean_of(&prices);
        let sd = stddev_of(&prices);
        let model = if offers.len() == 0 {
            String::from_str("unknown")
        } else {
            offers[0].model.clone()
        };
        Ok(ModelStats { model, avg_price: avg, std_dev: sd, last_updated: now_ts() })
    }
}

/// An offer qualifies as a deal: price within the configured bounds, and
/// either relatively below the mean by more than the threshold (thousandths)
/// or absolutely below it by at least the configured delta (cents).
pub open spec fn is_deal(o: Offer, stats: ModelStats, cfg: ModelConfig) -> bool {
    &&& cfg.min_price <= o.price_cents <= cfg.max_price
    &&& (1000 * (o.price_cents as int) < (stats.avg_price as int) * (1000
        - cfg.deviation_milli as int) || (stats.avg_price as int) - (o.price_cents as int)
        >= cfg.min_price_delta as int)
}

/// The deals of a batch, in batch order.
pub open spec fn deals_of(offers: Seq<Offer>, stats: ModelStats, cfg: ModelConfig) -> Seq<Offer>
    decreases offers.len(),
{
    if offers.len() == 0 {
        Seq::empty()
    } else {
        let p = deals_of(offers.drop_last(), stats, cfg);
        if is_deal(offers.last(), stats, cfg) {
            p.push(offers.last())
        } else {
            p
        }
    }
}

/// Whether the offer's price undercuts the mean by more than the relative
/// threshold, computed in 128-bit integers.
fn under_percent(price_cents: u64, stats: &ModelStats, cfg: &ModelConfig) -> (r: bool)
    ensures
        r == (1000 * (price_cents as int) < (stats.avg_price as int) * (1000
            - cfg.deviation_milli as int)),
{
    if cfg.deviation_milli > 1000 {
        proof {
            assert((stats.avg_price as int) * (1000 - cfg.deviation_milli as int) <= 0)
                by (nonlinear_arith)
                requires
                    0 <= stats.avg_price as int,
                    1000 - (cfg.deviation_milli as int) < 0,
            ;
        }
        return false;
    }
    let lhs: u128 = 1000 * (price_cents as u128);
    let factor: u128 = (1000 - cfg.deviation_milli) as u128;
    proof {
        assert((stats.avg_price as int) * (factor as int) <= (u64::MAX as int) * 1000)
            by (nonlinear_arith)
            requires
                0 <= stats.avg_price as int <= u64::MAX as int,
                0 <= factor as int <= 1000,
        ;
    }
    let rhs: u128 = (stats.avg_price as u128) * factor;
    lhs < rhs
}

/// Whether the offer's price undercuts the mean by at least the absolute
/// delta.
fn under_absolute(price_cents: u64, stats: &ModelStats, cfg: &ModelConfig) -> (r: bool)
    ensures
        r == ((stats.avg_price as int) - (price_cents as int) >= cfg.min_price_delta as int),
{
    stats.avg_price >= price_cents && stats.avg_price - price_cents >= cfg.min_price_delta
}

impl AnalyzerImpl {
    /// The offers that qualify as deals against the given statistics and
    /// thresholds, in batch order.
    pub fn find_deals(&self, offers: &Vec<Offer>, stats: &ModelStats, cfg: &ModelConfig) -> (r:
        Vec<Offer>)
        ensures
            r@ == deals_of(offers@, *stats, *cfg),
    {
        let n = offers.len();
        let mut r: Vec<Offer> = Vec::new();
        let mut i: usize = 0;
        while i < n
            invariant
                n == offers@.len(),
                i <= n,
                r@ == deals_of(offers@.take(i as int), *stats, *cfg),
            decreases n - i,
        {
            proof {
                assert(offers@.take(i as int + 1).drop_last() =~= offers@.take(i as int));
            }
            let p = offers[i].price_cents;
            if cfg.min_price <= p && p <= cfg.max_price && (under_percent(p, stats, cfg)
                || under_absolute(p, stats, cfg)) {
                r.push(offers[i].clone());
            }
            i = i + 1;
        }
        proof {
            assert(offers@.take(n as int) =~= offers@);
        }
        r
    }
}

/// The volatility recorded for a bucket: the first entry with that key.
pub open spec fn vol_lookup(m: Seq<(PriceRange, u64)>, pr: PriceRange) -> Option<u64>
    decreases m.len(),
{
    if m.len() == 0 {
        None
    } else if m[0].0 == pr {
        Some(m[0].1)
    } else {
        vol_lookup(m.drop_first(), pr)
    }
}

/// Looks a bucket up in a volatility map.
fn vol_of(m: &Vec<(PriceRange, u64)>, pr: PriceRange) -> (r: Option<u64>)
    ensures
        r == vol_lookup(m@, pr),
{
    let n = m.len();
    let mut j: usize = 0;
    proof {
        assert(m@.skip(0) =~= m@);
    }
    while j < n
        invariant
            n == m@.len(),
            j <= n,
            vol_lookup(m@, pr) == vol_lookup(m@.skip(j as int), pr),
        decreases n - j,
    {
        proof {
            assert(m@.skip(j as int).drop_first() =~= m@.skip(j as int + 1));
            assert(m@.skip(j as int)[0] == m@[j as int]);
        }
        if m[j].0 == pr {
            return Some(m[j].1);
        }
        j = j + 1;
    }
    proof {
        assert(m@.skip(n as int) =~= Seq::<(PriceRange, u64)>::empty());
    }
    None
}

/// An offer qualifies under the expanded policy: a deal by the base rule
/// whose price bucket is not too volatile — a bucket with recorded
/// volatility above the configured threshold is excluded as an unstable
/// market signal.
pub open spec fn is_expanded_deal(
    o: Offer,
    stats: ModelStats,
    cfg: ModelConfig,
    vol: Seq<(PriceRange, u64)>,
) -> bool {
    &&& is_deal(o, stats, cfg)
    &&& !(vol_lookup(vol, spec_default_range(o.price_cents)) matches Some(v) && v
        > cfg.volatility_threshold)
}

/// The expanded-policy deals of a batch, in batch order.
pub open spec fn expanded_deals_of(
    offers: Seq<Offer>,
    stats: ModelStats,
    cfg: ModelConfig,
    vol: Seq<(PriceRange, u64)>,
) -> Seq<Offer>
    decreases offers.len(),
{
    if offers.len() == 0 {
        Seq::empty()
    } else {
        let p = expanded_deals_of(offers.drop_last(), stats, cfg, vol);
        if is_expanded_deal(offers.last(), stats, cfg, vol) {
            p.push(offers.last())
        } else {
            p
        }
    }
}

/// The overall result of one analysis cycle, purely derived from the
/// batch: average lifespan, price-change frequency (hundredths), relative
/// strength index, volatility and median lifespan, the per-bucket maps
/// keyed by distinct buckets.
pub struct AnalysisResult {
    pub disappearance_map: Vec<(PriceRange, u64)>,
    pub price_change_frequency: u64,
    pub rsi: u64,
    pub volatility_map: Vec<(PriceRange, u64)>,
    pub lifespan_median: Vec<(PriceRange, u64)>,
}

/// What an analysis result says of the lifecycle records it was computed
/// from: each map carries exactly the per-bucket indicator for every
/// populated bucket, the frequency and the index are those of the record
/// set (the index over the ascending price series).
pub open spec fn analysis_ok(recs: Seq<OfferLifecycle>, a: AnalysisResult) -> bool {
    &&& distinct_ranges(a.disappearance_map@)
    &&& forall|k: int| 0 <= k < a.disappearance_map@.len() ==> range_count(
        recs,
        (#[trigger] a.disappearance_map@[k]).0,
    ) > 0 && a.disappearance_map@[k].1 == spec_mean_lifespan(recs, a.disappearance_map@[k].0)
    &&& forall|pr: PriceRange| range_count(recs, pr) > 0 ==> map_has_range(
        a.disappearance_map@,
        pr,
    )
    &&& a.price_change_frequency == spec_frequency(recs)
    &&& a.rsi == spec_rsi(recs.map_values(|r: OfferLifecycle| r.price_cents).sort_by(u64_le()))
    &&& distinct_ranges(a.volatility_map@)
    &&& forall|k: int| 0 <= k < a.volatility_map@.len() ==> range_count(
        recs,
        (#[trigger] a.volatility_map@[k]).0,
    ) > 0 && is_floor_sqrt(
        spec_variance_floor(prices_in_range(recs, a.volatility_map@[k].0)),
        a.volatility_map@[k].1 as int,
    )
    &&& forall|pr: PriceRange| range_count(recs, pr) > 0 ==> map_has_range(a.volatility_map@, pr)
    &&& distinct_ranges(a.lifespan_median@)
    &&& forall|k: int| 0 <= k < a.lifespan_median@.len() ==> range_count(
        recs,
        (#[trigger] a.lifespan_median@[k]).0,
    ) > 0 && a.lifespan_median@[k].1 == spec_median_lifespan(recs, a.lifespan_median@[k].0)
    &&& forall|pr: PriceRange| range_count(recs, pr) > 0 ==> map_has_range(a.lifespan_median@, pr)
}

impl AnalyzerImpl {
    /// The offers that qualify under the expanded policy: the base deal
    /// rule, with offers in a bucket whose recorded volatility exceeds the
    /// configured threshold excluded.
    pub fn find_deals_expanded(
        &self,
        offers: &Vec<Offer>,
        stats: &ModelStats,
        cfg: &ModelConfig,
        analysis: &AnalysisResult,
    ) -> (r: Vec<Offer>)
        requires
            valid_batch(offers@),
        ensures
            r@ == expanded_deals_of(offers@, *stats, *cfg, analysis.volatility_map@),
    {
        let n = offers.len();
        let mut r: Vec<Offer> = Vec::new();
        let mut i: usize = 0;
        while i < n
            invariant
                valid_batch(offers@),
                n == offers@.len(),
                i <= n,
                r@ == expanded_deals_of(
                    offers@.take(i as int),
                    *stats,
                    *cfg,
                    analysis.volatility_map@,
                ),
            decreases n - i,
        {
            proof {
                assert(offers@.take(i as int + 1).drop_last() =~= offers@.take(i as int));
            }
            let p = offers[i].price_cents;
            let base = cfg.min_price <= p && p <= cfg.max_price && (under_percent(p, stats, cfg)
                || under_absolute(p, stats, cfg));
            if base {
                let range = MarketAnalyzer::get_price_range(p);
                let excluded = match vol_of(&analysis.volatility_map, range) {
                    Some(v) => v > cfg.volatility_threshold,
                    None => false,
                };
                if !excluded {
                    r.push(offers[i].clone());
                }
            }
            i = i + 1;
        }
        proof {
            assert(offers@.take(n as int) =~= offers@);
        }
        r
    }

    /// One analysis cycle: builds the lifecycle records of the batch and
    /// computes every indicator over them.  The relative strength index is
    /// computed over the records' prices sorted ascending.
    pub fn analyze_offers(&self, offers: &Vec<Offer>) -> (r: AnalysisResult)
        requires
            valid_batch(offers@),
        ensures
            exists|recs: Seq<OfferLifecycle>| #[trigger] built_records(offers@, recs)
                && analysis_ok(recs, r),
    {
        let lifecycles = build_lifecycle_data(offers);
        let disappearance_map = MarketAnalyzer::disappearance_speed(&lifecycles);
        let freq = MarketAnalyzer::price_change_frequency(&lifecycles);
        let ln = lifecycles.len();
        let mut price_series: Vec<u64> = Vec::new();
        let mut i: usize = 0;
        while i < ln
            invariant
                ln == lifecycles@.len(),
                i <= ln,
                price_series@.len() == i,
                forall|k: int| 0 <= k < i ==> #[trigger] price_series@[k]
                    == lifecycles@[k].price_cents,
            decreases ln - i,
        {
            price_series.push(lifecycles[i].price_cents);
            i = i + 1;
        }
        proof {
            assert(price_series@ =~= lifecycles@.map_values(
                |r: OfferLifecycle| r.price_cents,
            ));
        }
        let ghost unsorted = price_series@;
        crate::numeric::sort_u64(&mut price_series);
        proof {
            broadcast use vstd::seq_lib::group_to_multiset_ensures;

            assert forall|k: int| 0 <= k < price_series@.len()
                implies #[trigger] price_series@[k] <= MAX_PRICE_CENTS by {
                assert(price_series@.contains(price_series@[k]));
                assert(price_series@.to_multiset().count(price_series@[k]) > 0);
                assert(unsorted.to_multiset().count(price_series@[k]) > 0);
                assert(unsorted.contains(price_series@[k]));
                let t = choose|t: int| 0 <= t < unsorted.len() && unsorted[t]
                    == price_series@[k];
                assert(crate::model::wf_lifecycle(lifecycles@[t]));
            }
        }
        let rsi = MarketAnalyzer::compute_rsi(&price_series);
        let volatility_map = MarketAnalyzer::price_volatility(&lifecycles);
        let lifespan_median = MarketAnalyzer::lifespan_median(&lifecycles);
        let result = AnalysisResult {
            disappearance_map,
            price_change_frequency: freq,
            rsi,
            volatility_map,
            lifespan_median,
        };
        proof {
            assert(built_records(offers@, lifecycles@) && analysis_ok(lifecycles@, result));
        }
        result
    }
}

} // verus!
