//! The market indicator functions on concrete values.

use kleinsniper::market_indicators::{MarketAnalyzer, PriceRange};
use kleinsniper::model::OfferLifecycle;

fn record(id: &str, price_cents: u64, first_seen: i64, last_seen: i64, changes: u64) -> OfferLifecycle {
    OfferLifecycle {
        id: id.to_string(),
        price_cents,
        first_seen,
        last_seen,
        price_changes: changes,
    }
}

#[test]
fn price_range_of_123_40_with_step_50() {
    // 123.40 currency units round to 123, which falls into [100, 150).
    let r = MarketAnalyzer::get_price_range_with_step(12340, 50);
    assert_eq!(r, PriceRange(100, 150));
}

#[test]
fn price_range_rounds_half_up() {
    // 123.50 rounds to 124, still [100, 150); 149.50 rounds to 150, [150, 200).
    assert_eq!(MarketAnalyzer::get_price_range_with_step(12350, 50), PriceRange(100, 150));
    assert_eq!(MarketAnalyzer::get_price_range_with_step(14950, 50), PriceRange(150, 200));
}

#[test]
fn price_range_respects_step() {
    let r = MarketAnalyzer::get_price_range_with_step(12340, 100);
    assert_eq!(r, PriceRange(100, 200));
    assert_eq!(r.1 - r.0, 100);
}

#[test]
fn price_range_default_step() {
    assert_eq!(MarketAnalyzer::get_price_range(8000), PriceRange(50, 100));
}

#[test]
fn moving_average_values() {
    let data = vec![100u64, 200, 300, 400];
    let r = MarketAnalyzer::moving_average(&data, 2);
    assert_eq!(r, vec![150u64, 250, 350]);
}

#[test]
fn moving_average_window_one_is_identity() {
    let data = vec![7u64, 9, 11];
    assert_eq!(MarketAnalyzer::moving_average(&data, 1), data);
}

#[test]
fn moving_average_zero_window_is_empty() {
    let data = vec![100u64, 200];
    assert!(MarketAnalyzer::moving_average(&data, 0).is_empty());
}

#[test]
fn moving_average_window_longer_than_data_is_empty() {
    let data = vec![100u64, 200];
    assert!(MarketAnalyzer::moving_average(&data, 3).is_empty());
}

#[test]
fn moving_average_length_rule() {
    // Output length is len - w + 1 whenever 0 < w <= len.
    let data = vec![5u64, 6, 7, 8, 9];
    for w in 1..=5usize {
        assert_eq!(MarketAnalyzer::moving_average(&data, w).len(), data.len() - w + 1);
    }
}

#[test]
fn rsi_flat_series_is_neutral() {
    let prices = vec![10u64, 10, 10];
    assert_eq!(MarketAnalyzer::compute_rsi(&prices), 50);
}

#[test]
fn rsi_short_series_is_zero() {
    assert_eq!(MarketAnalyzer::compute_rsi(&vec![10u64]), 0);
    assert_eq!(MarketAnalyzer::compute_rsi(&Vec::new()), 0);
}

#[test]
fn rsi_pure_gains_is_hundred() {
    let prices = vec![100u64, 200, 300];
    assert_eq!(MarketAnalyzer::compute_rsi(&prices), 100);
}

#[test]
fn rsi_pure_losses_is_zero() {
    let prices = vec![300u64, 200, 100];
    assert_eq!(MarketAnalyzer::compute_rsi(&prices), 0);
}

#[test]
fn rsi_mixed_series_value() {
    // Gains 10, losses 5: floor(100 * 10 / 15) = 66.
    let prices = vec![10u64, 20, 15];
    assert_eq!(MarketAnalyzer::compute_rsi(&prices), 66);
}

#[test]
fn rsi_always_bounded() {
    let cases: Vec<Vec<u64>> = vec![
        vec![1, 1_000_000, 3, 999_999],
        vec![0, 400_000_000_000],
        vec![42, 41, 40, 41, 42, 43],
    ];
    for prices in cases {
        let r = MarketAnalyzer::compute_rsi(&prices);
        assert!(r <= 100);
    }
}

#[test]
fn frequency_empty_is_zero() {
    assert_eq!(MarketAnalyzer::price_change_frequency(&Vec::new()), 0);
}

#[test]
fn frequency_in_hundredths_rounded() {
    // Changes 1 + 2 over 2 records: 1.50 changes per record, i.e. 150.
    let recs = vec![record("a", 1000, 0, 10, 1), record("b", 2000, 0, 10, 2)];
    assert_eq!(MarketAnalyzer::price_change_frequency(&recs), 150);
    // Changes 1 over 3 records: 0.3333 rounds to 0.33.
    let recs = vec![
        record("a", 1000, 0, 10, 1),
        record("b", 2000, 0, 10, 0),
        record("c", 3000, 0, 10, 0),
    ];
    assert_eq!(MarketAnalyzer::price_change_frequency(&recs), 33);
}

#[test]
fn disappearance_speed_mean_per_bucket() {
    // 10000 and 12000 cents both round into [100, 150); 20000 into [200, 250).
    let recs = vec![
        record("a", 10000, 0, 100, 0),
        record("b", 12000, 50, 250, 0),
        record("c", 20000, 0, 1000, 0),
    ];
    let m = MarketAnalyzer::disappearance_speed(&recs);
    assert_eq!(m.len(), 2);
    assert!(m.contains(&(PriceRange(100, 150), 150)));
    assert!(m.contains(&(PriceRange(200, 250), 1000)));
}

#[test]
fn volatility_population_stddev_per_bucket() {
    // Prices 10000 and 12000 in one bucket: mean 11000, deviations 1000,
    // population standard deviation exactly 1000 cents.
    let recs = vec![record("a", 10000, 0, 10, 0), record("b", 12000, 0, 10, 0)];
    let m = MarketAnalyzer::price_volatility(&recs);
    assert_eq!(m, vec![(PriceRange(100, 150), 1000)]);
}

#[test]
fn volatility_single_record_is_zero() {
    let recs = vec![record("a", 10000, 0, 10, 0)];
    assert_eq!(MarketAnalyzer::price_volatility(&recs), vec![(PriceRange(100, 150), 0)]);
}

#[test]
fn median_odd_bucket_takes_middle() {
    let recs = vec![
        record("a", 10000, 0, 300, 0),
        record("b", 10100, 0, 100, 0),
        record("c", 10200, 0, 200, 0),
    ];
    assert_eq!(MarketAnalyzer::lifespan_median(&recs), vec![(PriceRange(100, 150), 200)]);
}

#[test]
fn median_even_bucket_interpolates() {
    // Lifespans 100 and 301: halfway (flooring) is 100 + 201/2 = 200.
    let recs = vec![record("a", 10000, 0, 301, 0), record("b", 10100, 0, 100, 0)];
    assert_eq!(MarketAnalyzer::lifespan_median(&recs), vec![(PriceRange(100, 150), 200)]);
}

#[test]
fn correlation_of_series_with_itself_is_one() {
    let x = vec![100u64, 200, 300];
    let c = MarketAnalyzer::compute_correlation(&x, &x).expect("non-constant series");
    assert_eq!(c.milli(), Some(1000));
}

#[test]
fn correlation_of_reversed_series_is_minus_one() {
    let x = vec![100u64, 200, 300];
    let y = vec![300u64, 200, 100];
    let c = MarketAnalyzer::compute_correlation(&x, &y).expect("non-constant series");
    assert_eq!(c.milli(), Some(-1000));
}

#[test]
fn correlation_mismatched_lengths_is_undefined() {
    let x = vec![100u64, 200, 300];
    let y = vec![100u64, 200];
    assert!(MarketAnalyzer::compute_correlation(&x, &y).is_none());
}

#[test]
fn correlation_empty_is_undefined() {
    let x: Vec<u64> = Vec::new();
    assert!(MarketAnalyzer::compute_correlation(&x, &x).is_none());
}

#[test]
fn correlation_constant_series_is_undefined() {
    let x = vec![100u64, 100, 100];
    let y = vec![100u64, 200, 300];
    assert!(MarketAnalyzer::compute_correlation(&x, &y).is_none());
    assert!(MarketAnalyzer::compute_correlation(&y, &x).is_none());
}
