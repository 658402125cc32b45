//! Statistics, deal classification and the orchestrator on concrete
//! batches.

use kleinsniper::market_indicators::PriceRange;
use kleinsniper::model::{ModelConfig, Offer, StatsError};
use kleinsniper::price_analysis::{AnalysisResult, AnalyzerImpl};

fn offer(id: &str, price_cents: u64, fetched_at: i64) -> Offer {
    Offer {
        id: id.to_string(),
        title: String::new(),
        description: String::new(),
        price_cents,
        location: String::new(),
        model: "widget".to_string(),
        link: String::new(),
        posted_at: fetched_at,
        fetched_at,
        user_id: None,
        user_name: None,
        user_url: None,
    }
}

fn config(deviation_milli: u32, min_price_delta: u64, min_price: u64, max_price: u64) -> ModelConfig {
    ModelConfig {
        query: "widget".to_string(),
        category_id: String::new(),
        deviation_milli,
        min_price_delta,
        min_price,
        max_price,
        match_keywords: vec!["widget".to_string()],
        volatility_threshold: 2000,
    }
}

fn empty_analysis() -> AnalysisResult {
    AnalysisResult {
        disappearance_map: Vec::new(),
        price_change_frequency: 0,
        rsi: 0,
        volatility_map: Vec::new(),
        lifespan_median: Vec::new(),
    }
}

#[test]
fn stats_mean_and_deviation() {
    // Prices 100, 100 and 80: mean 93.33, population deviation about 9.43
    // (the engine floors: 9.42 in whole cents).
    let offers = vec![offer("a", 10000, 0), offer("b", 10000, 0), offer("c", 8000, 0)];
    let stats = AnalyzerImpl::new().calculate_stats(&offers).unwrap();
    assert_eq!(stats.avg_price, 9333);
    assert_eq!(stats.std_dev, 942);
    assert_eq!(stats.model, "widget");
}

#[test]
fn stats_skip_non_positive_prices() {
    let offers = vec![offer("a", 0, 0), offer("b", 6000, 0)];
    let stats = AnalyzerImpl::new().calculate_stats(&offers).unwrap();
    assert_eq!(stats.avg_price, 6000);
    assert_eq!(stats.std_dev, 0);
}

#[test]
fn stats_all_filtered_out_is_an_error() {
    let offers = vec![offer("a", 0, 0), offer("b", 0, 0)];
    assert!(matches!(AnalyzerImpl::new().calculate_stats(&offers), Err(StatsError::EmptyInput)));
}

#[test]
fn stats_empty_batch_is_an_error() {
    let offers: Vec<Offer> = Vec::new();
    assert!(matches!(AnalyzerImpl::new().calculate_stats(&offers), Err(StatsError::EmptyInput)));
}

#[test]
fn stats_twice_on_same_batch_agree() {
    let offers = vec![offer("a", 10000, 0), offer("b", 10000, 0), offer("c", 8000, 0)];
    let analyzer = AnalyzerImpl::new();
    let s1 = analyzer.calculate_stats(&offers).unwrap();
    let s2 = analyzer.calculate_stats(&offers).unwrap();
    assert_eq!(s1.avg_price, s2.avg_price);
    assert_eq!(s1.std_dev, s2.std_dev);
    assert_eq!(s1.model, s2.model);
}

#[test]
fn deal_by_absolute_drop() {
    // Threshold 15 %, delta 13 units, bounds [0, 1000]: the listing at 80
    // undercuts the mean of 93.33 by 13.33 >= 13 and qualifies; the two at
    // 100 do not.
    let offers = vec![offer("a", 10000, 0), offer("b", 10000, 0), offer("c", 8000, 0)];
    let analyzer = AnalyzerImpl::new();
    let stats = analyzer.calculate_stats(&offers).unwrap();
    let cfg = config(150, 1300, 0, 100000);
    let deals = analyzer.find_deals(&offers, &stats, &cfg);
    assert_eq!(deals.len(), 1);
    assert_eq!(deals[0].id, "c");
}

#[test]
fn deal_misses_when_drop_is_below_both_thresholds() {
    // With a 15-unit delta the same 13.33-unit drop is not enough, and
    // 80 is not below 85 % of 93.33 either: no deal.
    let offers = vec![offer("a", 10000, 0), offer("b", 10000, 0), offer("c", 8000, 0)];
    let analyzer = AnalyzerImpl::new();
    let stats = analyzer.calculate_stats(&offers).unwrap();
    let cfg = config(150, 1500, 0, 100000);
    assert!(analyzer.find_deals(&offers, &stats, &cfg).is_empty());
}

#[test]
fn deal_by_relative_drop() {
    // Mean 100.00; 84.00 is below 85 % of the mean even though the absolute
    // delta of 16 units misses a 20-unit requirement.
    let offers = vec![offer("a", 11600, 0), offer("b", 8400, 0)];
    let analyzer = AnalyzerImpl::new();
    let stats = analyzer.calculate_stats(&offers).unwrap();
    assert_eq!(stats.avg_price, 10000);
    let cfg = config(150, 2000, 0, 100000);
    let deals = analyzer.find_deals(&offers, &stats, &cfg);
    assert_eq!(deals.len(), 1);
    assert_eq!(deals[0].id, "b");
}

#[test]
fn deal_respects_price_bounds() {
    let offers = vec![offer("a", 10000, 0), offer("b", 10000, 0), offer("c", 8000, 0)];
    let analyzer = AnalyzerImpl::new();
    let stats = analyzer.calculate_stats(&offers).unwrap();
    // The qualifying listing sits below min_price: no deals at all.
    let cfg = config(150, 1300, 9000, 100000);
    assert!(analyzer.find_deals(&offers, &stats, &cfg).is_empty());
}

#[test]
fn expanded_policy_suppresses_volatile_buckets() {
    let offers = vec![offer("a", 10000, 0), offer("b", 10000, 0), offer("c", 8000, 0)];
    let analyzer = AnalyzerImpl::new();
    let stats = analyzer.calculate_stats(&offers).unwrap();
    let cfg = config(150, 1300, 0, 100000);
    // 80.00 rounds into the bucket [50, 100).
    let mut analysis = empty_analysis();
    analysis.volatility_map = vec![(PriceRange(50, 100), 2500)];
    assert!(analyzer.find_deals_expanded(&offers, &stats, &cfg, &analysis).is_empty());
    analysis.volatility_map = vec![(PriceRange(50, 100), 1500)];
    let deals = analyzer.find_deals_expanded(&offers, &stats, &cfg, &analysis);
    assert_eq!(deals.len(), 1);
    assert_eq!(deals[0].id, "c");
}

#[test]
fn expanded_policy_without_entry_keeps_deal() {
    let offers = vec![offer("a", 10000, 0), offer("b", 10000, 0), offer("c", 8000, 0)];
    let analyzer = AnalyzerImpl::new();
    let stats = analyzer.calculate_stats(&offers).unwrap();
    let cfg = config(150, 1300, 0, 100000);
    let deals = analyzer.find_deals_expanded(&offers, &stats, &cfg, &empty_analysis());
    assert_eq!(deals.len(), 1);
    assert_eq!(deals[0].id, "c");
}

#[test]
fn analyze_offers_composes_the_indicators() {
    // Two identities: A at 100.00 then 110.00 (one change, lifespan 10),
    // B at 200.00 (lifespan 5).
    let offers = vec![
        offer("A", 10000, 0),
        offer("A", 11000, 10),
        offer("B", 20000, 5),
        offer("B", 20000, 10),
    ];
    let analysis = AnalyzerImpl::new().analyze_offers(&offers);
    // One change over two records: 0.50 per record.
    assert_eq!(analysis.price_change_frequency, 50);
    // Sorted record prices 11000, 20000: pure gain.
    assert_eq!(analysis.rsi, 100);
    assert_eq!(analysis.disappearance_map.len(), 2);
    assert!(analysis.disappearance_map.contains(&(PriceRange(100, 150), 10)));
    assert!(analysis.disappearance_map.contains(&(PriceRange(200, 250), 5)));
    assert!(analysis.volatility_map.contains(&(PriceRange(100, 150), 0)));
    assert!(analysis.lifespan_median.contains(&(PriceRange(200, 250), 5)));
}
