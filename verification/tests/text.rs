//! Text handling: price grammar, id extraction, classification, kebab
//! casing and date parsing.

use kleinsniper::model::ModelConfig;
use kleinsniper::normalizer::{classify_model, normalize_all};
use kleinsniper::parser::{extract_offer_id, parse_price_cents, KleinanzeigenParser};
use kleinsniper::utils::{parse_datetime, to_kebab_case};

fn model_cfg(query: &str, keywords: &[&str]) -> ModelConfig {
    ModelConfig {
        query: query.to_string(),
        category_id: String::new(),
        deviation_milli: 150,
        min_price_delta: 1500,
        min_price: 0,
        max_price: 100000,
        match_keywords: keywords.iter().map(|k| k.to_string()).collect(),
        volatility_threshold: 2000,
    }
}

#[test]
fn price_text_with_thousands_dot_and_comma() {
    assert_eq!(parse_price_cents("1.234,56 \u{20ac}"), 123456);
}

#[test]
fn price_text_whole_units() {
    assert_eq!(parse_price_cents("1.234 \u{20ac}"), 123400);
    assert_eq!(parse_price_cents(" 80 \u{20ac} "), 8000);
}

#[test]
fn price_text_single_decimal() {
    assert_eq!(parse_price_cents("12,3"), 1230);
    assert_eq!(parse_price_cents(",5"), 50);
}

#[test]
fn price_text_garbage_is_zero() {
    assert_eq!(parse_price_cents("VB"), 0);
    assert_eq!(parse_price_cents(""), 0);
    assert_eq!(parse_price_cents("   "), 0);
    assert_eq!(parse_price_cents("1,2,3"), 0);
    assert_eq!(parse_price_cents("1,234"), 0);
    assert_eq!(parse_price_cents("12 34"), 0);
}

#[test]
fn price_text_beyond_bound_is_zero() {
    assert_eq!(parse_price_cents("999999999999999"), 0);
}

#[test]
fn offer_id_from_ad_link() {
    assert_eq!(extract_offer_id("/s-anzeige/gute-kamera/2537687568-222-7832"), "2537687568");
}

#[test]
fn offer_id_without_dash_is_whole_segment() {
    assert_eq!(extract_offer_id("/a/b/12345"), "12345");
}

#[test]
fn offer_id_of_empty_link_is_empty() {
    assert_eq!(extract_offer_id(""), "");
}

#[test]
fn kebab_case_lowers_and_dashes() {
    assert_eq!(to_kebab_case("Nikon D750 Kit"), "nikon-d750-kit");
}

#[test]
fn classify_picks_first_matching_model() {
    let models = vec![model_cfg("camera a", &["nikon"]), model_cfg("camera b", &["d750"])];
    assert_eq!(classify_model("Nikon D750 body", &models), "camera a");
    assert_eq!(classify_model("Sony A7 III", &models), "unknown");
}

#[test]
fn classify_matches_case_insensitively() {
    let models = vec![model_cfg("camera a", &["NIKON"])];
    assert_eq!(classify_model("nikon d750", &models), "camera a");
}

#[test]
fn normalize_all_relabels_by_title() {
    let models = vec![model_cfg("camera a", &["nikon"])];
    let mut offers = vec![kleinsniper::model::Offer {
        id: "1".to_string(),
        title: "Nikon D750".to_string(),
        description: String::new(),
        price_cents: 10000,
        location: String::new(),
        model: String::new(),
        link: String::new(),
        posted_at: 0,
        fetched_at: 0,
        user_id: None,
        user_name: None,
        user_url: None,
    }];
    normalize_all(&mut offers, &models);
    assert_eq!(offers[0].model, "camera a");
    assert_eq!(offers[0].title, "Nikon D750");
}

#[test]
fn listing_filter_checks_bounds_and_keywords() {
    let parser = KleinanzeigenParser::new();
    let cfg = model_cfg("camera a", &["nikon"]);
    assert!(parser.passes_filters(10000, "Nikon D750", &cfg));
    assert!(!parser.passes_filters(10000, "Sony A7", &cfg));
    assert!(!parser.passes_filters(200000, "Nikon D750", &cfg));
}

#[test]
fn rfc3339_parse_to_epoch_seconds() {
    assert_eq!(parse_datetime("2024-01-01T00:00:00Z"), Some(1704067200));
    assert_eq!(parse_datetime("2024-01-01T01:00:00+01:00"), Some(1704067200));
    assert_eq!(parse_datetime("yesterday"), None);
}
