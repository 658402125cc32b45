//! Pure notification decisions and storage-side selection logic.  The
//! collaborators that own the clock, the database and the messaging
//! channel call these with plain values and act on the answers.

use vstd::prelude::*;
use crate::model::{Offer, MAX_TS};

verus! {

/// Seconds after which a listing may be notified about again.
pub const RENOTIFY_SECONDS: i64 = 86_400;

/// A notification is due when none was ever sent, or the last one is more
/// than a day old.
pub open spec fn spec_renotify_due(last_notified_at: Option<i64>, now: i64) -> bool {
    match last_notified_at {
        None => true,
        Some(t) => now - t > RENOTIFY_SECONDS,
    }
}

/// Whether a listing may be notified about again, by the day rule.
pub fn renotify_due(last_notified_at: Option<i64>, now: i64) -> (r: bool)
    requires
        -MAX_TS <= now <= MAX_TS,
        last_notified_at matches Some(t) ==> -MAX_TS <= t <= MAX_TS,
    ensures
        r == spec_renotify_due(last_notified_at, now),
{
    match last_notified_at {
        None => true,
        Some(t) => now - t > RENOTIFY_SECONDS,
    }
}

/// A candidate deserves a notification when the day rule allows one and it
/// is not the deal already on record as notified.
pub open spec fn spec_should_notify(
    previous_best_id: Option<Seq<char>>,
    candidate_id: Seq<char>,
    last_notified_at: Option<i64>,
    now: i64,
) -> bool {
    &&& spec_renotify_due(last_notified_at, now)
    &&& !(previous_best_id matches Some(p) && p == candidate_id)
}

/// The repeat-notification decision: notify exactly when the day rule
/// allows it and the candidate is not the previously notified best deal.
pub fn should_notify(
    previous_best_id: Option<&String>,
    candidate_id: &String,
    last_notified_at: Option<i64>,
    now: i64,
) -> (r: bool)
    requires
        -MAX_TS <= now <= MAX_TS,
        last_notified_at matches Some(t) ==> -MAX_TS <= t <= MAX_TS,
    ensures
        r == spec_should_notify(
            match previous_best_id {
                Some(p) => Some(p@),
                None => None,
            },
            candidate_id@,
            last_notified_at,
            now,
        ),
{
    let due = renotify_due(last_notified_at, now);
    let repeat = match previous_best_id {
        Some(p) => *p == *candidate_id,
        None => false,
    };
    due && !repeat
}

/// The cheapest offer of one product in a batch: the offer with the lowest
/// price among those labelled `model`, the later one on a tie.
pub open spec fn cheapest_of(offers: Seq<Offer>, model: Seq<char>) -> Option<Offer>
    decreases offers.len(),
{
    if offers.len() == 0 {
        None
    } else {
        let p = cheapest_of(offers.drop_last(), model);
        if offers.last().model@ == model {
            match p {
                None => Some(offers.last()),
                Some(c) => if offers.last().price_cents <= c.price_cents {
                    Some(offers.last())
                } else {
                    Some(c)
                },
            }
        } else {
            p
        }
    }
}

/// The cheapest offer is one of the product's offers and undercuts (or
/// ties) every one of them; there is one exactly when the product occurs.
pub proof fn lemma_cheapest_of_min(offers: Seq<Offer>, model: Seq<char>)
    ensures
        (cheapest_of(offers, model) is Some) <==> exists|i: int| 0 <= i < offers.len()
            && (#[trigger] offers[i]).model@ == model,
        cheapest_of(offers, model) matches Some(c) ==> c.model@ == model && (exists|i: int|
            0 <= i < offers.len() && #[trigger] offers[i] == c) && (forall|i: int|
            0 <= i < offers.len() && (#[trigger] offers[i]).model@ == model
                ==> c.price_cents <= offers[i].price_cents),
    decreases offers.len(),
{
    if offers.len() > 0 {
        lemma_cheapest_of_min(offers.drop_last(), model);
        match cheapest_of(offers, model) {
            Some(c) => {
                assert forall|i: int| 0 <= i < offers.len() && (#[trigger] offers[i]).model@
                    == model implies c.price_cents <= offers[i].price_cents by {
                    if i < offers.len() - 1 {
                        assert(offers.drop_last()[i] == offers[i]);
                    }
                }
                if exists|i: int| 0 <= i < offers.drop_last().len()
                    && #[trigger] offers.drop_last()[i] == c {
                    let i = choose|i: int| 0 <= i < offers.drop_last().len()
                        && #[trigger] offers.drop_last()[i] == c;
                    assert(offers[i] == c);
                }
            },
            None => {},
        }
        if exists|i: int| 0 <= i < offers.len() && (#[trigger] offers[i]).model@ == model {
            let i = choose|i: int| 0 <= i < offers.len() && (#[trigger] offers[i]).model@
                == model;
            if i < offers.len() - 1 {
                assert(offers.drop_last()[i].model@ == model);
            }
        }
    }
}

/// Picks the cheapest offer of one product from a batch, the later one on
/// a price tie.
pub fn cheapest_offer(offers: &Vec<Offer>, model: &String) -> (r: Option<Offer>)
    ensures
        r == cheapest_of(offers@, model@),
        (r is Some) <==> exists|i: int| 0 <= i < offers@.len() && (#[trigger] offers@[i]).model@
            == model@,
        r matches Some(c) ==> c.model@ == model@ && (forall|i: int| 0 <= i < offers@.len() && (
        #[trigger] offers@[i]).model@ == model@ ==> c.price_cents <= offers@[i].price_cents),
{
    proof {
        lemma_cheapest_of_min(offers@, model@);
    }
    let n = offers.len();
    let mut best: Option<Offer> = None;
    let mut i: usize = 0;
    while i < n
        invariant
            n == offers@.len(),
            i <= n,
            best == cheapest_of(offers@.take(i as int), model@),
        decreases n - i,
    {
        proof {
            assert(offers@.take(i as int + 1).drop_last() =~= offers@.take(i as int));
        }
        if offers[i].model == *model {
            let replace = match &best {
                None => true,
                Some(c) => offers[i].price_cents <= c.price_cents,
            };
            if replace {
                best = Some(offers[i].clone());
            }
        }
        i = i + 1;
    }
    proof {
        assert(offers@.take(n as int) =~= offers@);
    }
    best
}

/// The price a (title, seller) pair was first seen at, if any.
pub open spec fn seen_price(
    seen: Seq<(Seq<char>, Seq<char>, u64)>,
    title: Seq<char>,
    user: Seq<char>,
) -> Option<u64>
    decreases seen.len(),
{
    if seen.len() == 0 {
        None
    } else if seen[0].0 == title && seen[0].1 == user {
        Some(seen[0].2)
    } else {
        seen_price(seen.drop_first(), title, user)
    }
}

/// The seller identity a repost scan keys an offer by: the user id, or
/// empty when the offer carries none.
pub open spec fn user_key(o: Offer) -> Seq<char> {
    match o.user_id {
        Some(u) => u@,
        None => Seq::empty(),
    }
}

/// Two prices lie within the repost tolerance of ten currency units.
pub open spec fn near_price(a: u64, b: u64) -> bool {
    -1000 < a - b < 1000
}

/// The state a repost scan reaches after the first `i` offers: the (title,
/// seller, price) triples first seen, and the reposts found so far.
pub struct RepostState {
    pub seen: Seq<(Seq<char>, Seq<char>, u64)>,
    pub reposts: Seq<Offer>,
}

/// One offer against the scan state: a (title, seller) pair seen before at
/// a nearby price is a probable repost; a pair seen at a far price is
/// ignored; an unseen pair is recorded with its price.
pub open spec fn repost_step(st: RepostState, o: Offer) -> RepostState {
    match seen_price(st.seen, o.title@, user_key(o)) {
        Some(p) => if near_price(o.price_cents, p) {
            RepostState { seen: st.seen, reposts: st.reposts.push(o) }
        } else {
            st
        },
        None => RepostState {
            seen: st.seen.push((o.title@, user_key(o), o.price_cents)),
            reposts: st.reposts,
        },
    }
}

/// The scan state after the first `i` offers of the batch.
pub open spec fn repost_scan(offers: Seq<Offer>, i: int) -> RepostState
    decreases i,
{
    if i <= 0 {
        RepostState { seen: Seq::empty(), reposts: Seq::empty() }
    } else {
        repost_step(repost_scan(offers, i - 1), offers[i - 1])
    }
}

/// Looks a (title, seller) pair up in the recorded triples.
fn lookup_seen(seen: &Vec<(String, String, u64)>, title: &String, user: &String) -> (r: Option<
    u64,
>)
    ensures
        r == seen_price(
            seen@.map_values(|t: (String, String, u64)| (t.0@, t.1@, t.2)),
            title@,
            user@,
        ),
{
    let ghost view = seen@.map_values(|t: (String, String, u64)| (t.0@, t.1@, t.2));
    let n = seen.len();
    let mut j: usize = 0;
    proof {
        assert(view.skip(0) =~= view);
    }
    while j < n
        invariant
            n == seen@.len(),
            j <= n,
            view == seen@.map_values(|t: (String, String, u64)| (t.0@, t.1@, t.2)),
            seen_price(view, title@, user@) == seen_price(view.skip(j as int), title@, user@),
        decreases n - j,
    {
        proof {
            assert(view.skip(j as int).drop_first() =~= view.skip(j as int + 1));
            assert(view.skip(j as int)[0] == view[j as int]);
        }
        if seen[j].0 == *title && seen[j].1 == *user {
            return Some(seen[j].2);
        }
        j = j + 1;
    }
    proof {
        assert(view.skip(n as int) =~= Seq::<(Seq<char>, Seq<char>, u64)>::empty());
    }
    None
}

/// Scans a batch, in order, for probable reposts: offers whose (title,
/// seller) pair was seen earlier in the batch at a price within ten
/// currency units of the first sighting.
pub fn find_probable_reposts(offers: &Vec<Offer>) -> (r: Vec<Offer>)
    ensures
        r@ == repost_scan(offers@, offers@.len() as int).reposts,
{
    let n = offers.len();
    let mut seen: Vec<(String, String, u64)> = Vec::new();
    let mut reposts: Vec<Offer> = Vec::new();
    let mut i: usize = 0;
    while i < n
        invariant
            n == offers@.len(),
            i <= n,
            seen@.map_values(|t: (String, String, u64)| (t.0@, t.1@, t.2)) == repost_scan(
                offers@,
                i as int,
            ).seen,
            reposts@ == repost_scan(offers@, i as int).reposts,
        decreases n - i,
    {
        let user: String = match &offers[i].user_id {
            Some(u) => u.clone(),
            None => String::new(),
        };
        let title = offers[i].title.clone();
        let price = offers[i].price_cents;
        proof {
            assert(user@ == user_key(offers@[i as int]));
        }
        match lookup_seen(&seen, &title, &user) {
            Some(p) => {
                let near = if price >= p {
                    price - p < 1000
                } else {
                    p - price < 1000
                };
                if near {
                    reposts.push(offers[i].clone());
                }
            },
            None => {
                let ghost pre_seen = seen@;
                seen.push((title, user, price));
                proof {
                    assert(seen@.map_values(|t: (String, String, u64)| (t.0@, t.1@, t.2))
                        =~= pre_seen.map_values(|t: (String, String, u64)| (t.0@, t.1@, t.2))
                        .push((offers@[i as int].title@, user_key(offers@[i as int]), price)));
                }
            },
        }
        i = i + 1;
    }
    reposts
}

} // verus!
