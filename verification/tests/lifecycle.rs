//! The lifecycle builder on concrete batches.

use kleinsniper::lifecycle::build_lifecycle_data;
use kleinsniper::model::Offer;

fn obs(id: &str, price_cents: u64, fetched_at: i64) -> Offer {
    Offer {
        id: id.to_string(),
        title: String::new(),
        description: String::new(),
        price_cents,
        location: String::new(),
        model: String::new(),
        link: String::new(),
        posted_at: fetched_at,
        fetched_at,
        user_id: None,
        user_name: None,
        user_url: None,
    }
}

#[test]
fn lifecycle_tracks_price_transitions() {
    // Identity X at price 50 (t=0), 55 (t=10), 50 (t=20): two transitions,
    // first seen at 0, last at 20, final stored price 50.
    let offers = vec![obs("X", 5000, 0), obs("X", 5500, 10), obs("X", 5000, 20)];
    let recs = build_lifecycle_data(&offers);
    assert_eq!(recs.len(), 1);
    assert_eq!(recs[0].id, "X");
    assert_eq!(recs[0].price_changes, 2);
    assert_eq!(recs[0].first_seen, 0);
    assert_eq!(recs[0].last_seen, 20);
    assert_eq!(recs[0].price_cents, 5000);
}

#[test]
fn lifecycle_same_price_counts_no_change() {
    let offers = vec![obs("X", 5000, 0), obs("X", 5000, 10), obs("X", 5000, 20)];
    let recs = build_lifecycle_data(&offers);
    assert_eq!(recs.len(), 1);
    assert_eq!(recs[0].price_changes, 0);
    assert_eq!(recs[0].first_seen, 0);
    assert_eq!(recs[0].last_seen, 20);
}

#[test]
fn lifecycle_empty_batch_is_empty() {
    let offers: Vec<Offer> = Vec::new();
    assert!(build_lifecycle_data(&offers).is_empty());
}

#[test]
fn lifecycle_one_record_per_identity() {
    let offers = vec![obs("A", 1000, 0), obs("B", 2000, 1), obs("A", 1000, 2)];
    let recs = build_lifecycle_data(&offers);
    assert_eq!(recs.len(), 2);
    assert_eq!(recs[0].id, "A");
    assert_eq!(recs[1].id, "B");
    assert_eq!(recs[0].last_seen, 2);
    assert_eq!(recs[1].last_seen, 1);
}

#[test]
fn lifecycle_timestamps_enclose_out_of_order_observations() {
    let offers = vec![obs("X", 5000, 10), obs("X", 5000, 0), obs("X", 5000, 5)];
    let recs = build_lifecycle_data(&offers);
    assert_eq!(recs[0].first_seen, 0);
    assert_eq!(recs[0].last_seen, 10);
}

#[test]
fn total_changes_invariant_to_interleaving() {
    // The same per-identity observation subsequences, interleaved two ways:
    // the total price-change count is the same.
    let batch1 = vec![
        obs("A", 1000, 0),
        obs("B", 9000, 0),
        obs("A", 1100, 1),
        obs("B", 9000, 1),
        obs("A", 1000, 2),
    ];
    let batch2 = vec![
        obs("A", 1000, 0),
        obs("A", 1100, 1),
        obs("A", 1000, 2),
        obs("B", 9000, 0),
        obs("B", 9000, 1),
    ];
    let sum1: u64 = build_lifecycle_data(&batch1).iter().map(|r| r.price_changes).sum();
    let sum2: u64 = build_lifecycle_data(&batch2).iter().map(|r| r.price_changes).sum();
    assert_eq!(sum1, 2);
    assert_eq!(sum1, sum2);
}
