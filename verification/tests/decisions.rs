//! The pure notification and scraping decisions.

use kleinsniper::model::Offer;
use kleinsniper::notify::{cheapest_offer, find_probable_reposts, renotify_due, should_notify};
use kleinsniper::scraper::is_duplicate_page;

fn offer(id: &str, model: &str, price_cents: u64, user: Option<&str>) -> Offer {
    Offer {
        id: id.to_string(),
        title: format!("listing {}", id),
        description: String::new(),
        price_cents,
        location: String::new(),
        model: model.to_string(),
        link: String::new(),
        posted_at: 0,
        fetched_at: 0,
        user_id: user.map(|u| u.to_string()),
        user_name: None,
        user_url: None,
    }
}

#[test]
fn renotify_when_never_notified() {
    assert!(renotify_due(None, 1_000_000));
}

#[test]
fn renotify_only_after_a_day() {
    let now = 1_000_000;
    assert!(renotify_due(Some(now - 86_401), now));
    assert!(!renotify_due(Some(now - 86_400), now));
    assert!(!renotify_due(Some(now), now));
}

#[test]
fn no_repeat_notification_for_same_best_deal() {
    let cand = "123".to_string();
    let prev = "123".to_string();
    let other = "456".to_string();
    assert!(!should_notify(Some(&prev), &cand, None, 0));
    assert!(should_notify(Some(&other), &cand, None, 0));
    assert!(should_notify(None, &cand, None, 0));
}

#[test]
fn day_rule_still_applies_to_new_best_deal() {
    let cand = "123".to_string();
    let other = "456".to_string();
    let now = 1_000_000;
    assert!(!should_notify(Some(&other), &cand, Some(now - 100), now));
}

#[test]
fn cheapest_picks_the_minimum_of_the_model() {
    let offers = vec![
        offer("1", "a", 300, None),
        offer("2", "b", 100, None),
        offer("3", "a", 200, None),
    ];
    let c = cheapest_offer(&offers, &"a".to_string()).unwrap();
    assert_eq!(c.id, "3");
    assert_eq!(c.price_cents, 200);
}

#[test]
fn cheapest_tie_goes_to_the_later_offer() {
    let offers = vec![offer("1", "a", 200, None), offer("2", "a", 200, None)];
    assert_eq!(cheapest_offer(&offers, &"a".to_string()).unwrap().id, "2");
}

#[test]
fn cheapest_of_absent_model_is_none() {
    let offers = vec![offer("1", "a", 300, None)];
    assert!(cheapest_offer(&offers, &"b".to_string()).is_none());
}

#[test]
fn repost_found_for_near_price_of_same_title_and_seller() {
    let mut first = offer("1", "a", 10000, Some("u1"));
    first.title = "same title".to_string();
    let mut second = offer("2", "a", 10900, Some("u1"));
    second.title = "same title".to_string();
    let reposts = find_probable_reposts(&vec![first, second]);
    assert_eq!(reposts.len(), 1);
    assert_eq!(reposts[0].id, "2");
}

#[test]
fn no_repost_for_far_price_or_other_seller() {
    let mut first = offer("1", "a", 10000, Some("u1"));
    first.title = "same title".to_string();
    let mut far = offer("2", "a", 11000, Some("u1"));
    far.title = "same title".to_string();
    let mut other_seller = offer("3", "a", 10000, Some("u2"));
    other_seller.title = "same title".to_string();
    assert!(find_probable_reposts(&vec![first, far, other_seller]).is_empty());
}

#[test]
fn duplicate_page_detection() {
    let a = "ad1".to_string();
    let b = "ad2".to_string();
    assert!(is_duplicate_page(Some(&a), Some(&a.clone())));
    assert!(!is_duplicate_page(Some(&a), Some(&b)));
    assert!(!is_duplicate_page(Some(&a), None));
    assert!(!is_duplicate_page(None, None));
}
