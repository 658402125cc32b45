//! The listing lifecycle builder: collapses a batch of offer observations
//! into one record per distinct listing identity, tracking the current
//! price, first/last observation timestamps and the price-change count.

use vstd::prelude::*;
use crate::model::{Offer, OfferLifecycle, valid_batch, wf_lifecycles, MAX_PRICE_CENTS, MAX_TS};
use crate::market_indicators::sum_changes;

verus! {

/// The state a sequence of observations of one identity folds into.
pub struct LifecycleModel {
    pub price: int,
    pub first: int,
    pub last: int,
    pub changes: int,
}

/// One further observation of an already tracked identity.  The stored
/// price moves to the newly observed price whenever the two differ (cents
/// are exact integers, so plain inequality is the integer counterpart of
/// the float epsilon comparison), and only such transitions count; the
/// timestamps widen to enclose the observation.
pub open spec fn step_model(m: LifecycleModel, o: Offer) -> LifecycleModel {
    let changed = o.price_cents != m.price;
    LifecycleModel {
        price: if changed {
            o.price_cents as int
        } else {
            m.price
        },
        changes: if changed {
            m.changes + 1
        } else {
            m.changes
        },
        first: if o.fetched_at < m.first {
            o.fetched_at as int
        } else {
            m.first
        },
        last: if o.fetched_at > m.last {
            o.fetched_at as int
        } else {
            m.last
        },
    }
}

/// The record the identity `id` accumulates over a batch, observation by
/// observation in batch order; `None` when the batch never observes `id`.
pub open spec fn lifecycle_model(obs: Seq<Offer>, id: Seq<char>) -> Option<LifecycleModel>
    decreases obs.len(),
{
    if obs.len() == 0 {
        None
    } else {
        let prev = lifecycle_model(obs.drop_last(), id);
        let o = obs.last();
        if o.id@ == id {
            match prev {
                None => Some(
                    LifecycleModel {
                        price: o.price_cents as int,
                        first: o.fetched_at as int,
                        last: o.fetched_at as int,
                        changes: 0,
                    },
                ),
                Some(m) => Some(step_model(m, o)),
            }
        } else {
            prev
        }
    }
}

/// The distinct identities of a batch, in order of first appearance.
pub open spec fn ids_of(obs: Seq<Offer>) -> Seq<Seq<char>>
    decreases obs.len(),
{
    if obs.len() == 0 {
        Seq::empty()
    } else {
        let prefix = ids_of(obs.drop_last());
        if prefix.contains(obs.last().id@) {
            prefix
        } else {
            prefix.push(obs.last().id@)
        }
    }
}

/// The record `rec` carries exactly the state `m`.
pub open spec fn rec_matches(rec: OfferLifecycle, m: Option<LifecycleModel>) -> bool {
    m matches Some(m) && rec.price_cents == m.price && rec.first_seen == m.first
        && rec.last_seen == m.last && rec.price_changes == m.changes
}

/// The identities of a batch are pairwise distinct.
pub proof fn lemma_ids_of_nodup(obs: Seq<Offer>)
    ensures
        forall|a: int, b: int| 0 <= a < b < ids_of(obs).len() ==> ids_of(obs)[a] != ids_of(
            obs,
        )[b],
        ids_of(obs).len() <= obs.len(),
    decreases obs.len(),
{
    if obs.len() > 0 {
        lemma_ids_of_nodup(obs.drop_last());
    }
}

/// A batch observes an identity exactly when that identity folds into a
/// record.
pub proof fn lemma_ids_model(obs: Seq<Offer>, id: Seq<char>)
    ensures
        ids_of(obs).contains(id) <==> lifecycle_model(obs, id) is Some,
    decreases obs.len(),
{
    if obs.len() > 0 {
        lemma_ids_model(obs.drop_last(), id);
        let prefix = ids_of(obs.drop_last());
        if obs.last().id@ == id {
            if !prefix.contains(id) {
                assert(ids_of(obs) == prefix.push(id));
                assert(ids_of(obs)[ids_of(obs).len() - 1] == id);
            }
        } else {
            if prefix.contains(id) {
                let t = choose|t: int| 0 <= t < prefix.len() && prefix[t] == id;
                if !prefix.contains(obs.last().id@) {
                    assert(ids_of(obs)[t] == id);
                }
            } else {
                if !prefix.contains(obs.last().id@) {
                    assert forall|t: int| 0 <= t < ids_of(obs).len()
                        implies ids_of(obs)[t] != id by {
                        if t < prefix.len() {
                            assert(prefix[t] != id);
                        }
                    }
                }
            }
        }
    }
}

/// The record set the builder owes a batch: well formed, one record per
/// distinct identity in order of first appearance, each the fold of that
/// identity's observations in batch order.
pub open spec fn built_records(obs: Seq<Offer>, recs: Seq<OfferLifecycle>) -> bool {
    &&& wf_lifecycles(recs)
    &&& recs.len() == ids_of(obs).len()
    &&& forall|k: int| 0 <= k < recs.len() ==> (#[trigger] recs[k]).id@ == ids_of(obs)[k]
    &&& forall|k: int| 0 <= k < recs.len() ==> rec_matches(
        #[trigger] recs[k],
        lifecycle_model(obs, recs[k].id@),
    )
}

/// Builds one lifecycle record per distinct identity of the batch, in
/// order of first appearance.  Each record is exactly the fold of that
/// identity's observations in batch order.
pub fn build_lifecycle_data(offers: &Vec<Offer>) -> (recs: Vec<OfferLifecycle>)
    requires
        valid_batch(offers@),
    ensures
        built_records(offers@, recs@),
{
    let n = offers.len();
    let mut recs: Vec<OfferLifecycle> = Vec::new();
    let mut i: usize = 0;
    while i < n
        invariant
            valid_batch(offers@),
            n == offers@.len(),
            i <= n,
            recs@.len() == ids_of(offers@.take(i as int)).len(),
            forall|k: int| 0 <= k < recs@.len() ==> (#[trigger] recs@[k]).id@ == ids_of(
                offers@.take(i as int),
            )[k],
            forall|k: int| 0 <= k < recs@.len() ==> rec_matches(
                #[trigger] recs@[k],
                lifecycle_model(offers@.take(i as int), recs@[k].id@),
            ),
            forall|k: int| 0 <= k < recs@.len() ==> (#[trigger] recs@[k]).price_cents
                <= MAX_PRICE_CENTS && -MAX_TS <= recs@[k].first_seen <= recs@[k].last_seen
                <= MAX_TS && (recs@[k].price_changes as int) < i,
        decreases n - i,
    {
        let ghost pre = offers@.take(i as int);
        let ghost post = offers@.take(i as int + 1);
        proof {
            assert(post.drop_last() =~= pre);
            lemma_ids_of_nodup(pre);
        }
        let m = recs.len();
        let mut found = false;
        let mut idx: usize = 0;
        let mut j: usize = 0;
        while j < m
            invariant
                m == recs@.len(),
                j <= m,
                i < n == offers@.len(),
                !found ==> forall|t: int| 0 <= t < j ==> (#[trigger] recs@[t]).id@ != offers@[
                    i as int
                ].id@,
                found ==> idx < m && recs@[idx as int].id@ == offers@[i as int].id@,
            decreases m - j,
        {
            if recs[j].id == offers[i].id {
                found = true;
                idx = j;
            }
            j = j + 1;
        }
        if found {
            proof {
                assert(ids_of(pre)[idx as int] == offers@[i as int].id@);
                assert(ids_of(pre).contains(offers@[i as int].id@));
                assert(ids_of(post) == ids_of(pre));
            }
            let o_price = offers[i].price_cents;
            let o_ts = offers[i].fetched_at;
            let changed = o_price != recs[idx].price_cents;
            let new_price = if changed { o_price } else { recs[idx].price_cents };
            let new_changes = if changed {
                recs[idx].price_changes + 1
            } else {
                recs[idx].price_changes
            };
            let new_first = if o_ts < recs[idx].first_seen { o_ts } else { recs[idx].first_seen };
            let new_last = if o_ts > recs[idx].last_seen { o_ts } else { recs[idx].last_seen };
            let new_id = recs[idx].id.clone();
            let ghost old_recs = recs@;
            recs.set(
                idx,
                OfferLifecycle {
                    id: new_id,
                    price_cents: new_price,
                    first_seen: new_first,
                    last_seen: new_last,
                    price_changes: new_changes,
                },
            );
            proof {
                assert forall|k: int| 0 <= k < recs@.len() implies rec_matches(
                    #[trigger] recs@[k],
                    lifecycle_model(post, recs@[k].id@),
                ) by {
                    if k == idx as int {
                        assert(lifecycle_model(post, recs@[k].id@) is Some);
                    } else {
                        assert(recs@[k] == old_recs[k]);
                        assert(ids_of(pre)[k] == recs@[k].id@);
                        assert(recs@[k].id@ != offers@[i as int].id@);
                        assert(lifecycle_model(post, recs@[k].id@) == lifecycle_model(
                            pre,
                            recs@[k].id@,
                        ));
                    }
                }
            }
        } else {
            proof {
                assert forall|t: int| 0 <= t < ids_of(pre).len() implies ids_of(pre)[t]
                    != offers@[i as int].id@ by {
                    assert(recs@[t].id@ == ids_of(pre)[t]);
                }
                assert(!ids_of(pre).contains(offers@[i as int].id@));
                assert(ids_of(post) == ids_of(pre).push(offers@[i as int].id@));
                lemma_ids_model(pre, offers@[i as int].id@);
                assert(lifecycle_model(pre, offers@[i as int].id@) is None);
            }
            let new_id = offers[i].id.clone();
            recs.push(
                OfferLifecycle {
                    id: new_id,
                    price_cents: offers[i].price_cents,
                    first_seen: offers[i].fetched_at,
                    last_seen: offers[i].fetched_at,
                    price_changes: 0,
                },
            );
            proof {
                assert forall|k: int| 0 <= k < recs@.len() implies rec_matches(
                    #[trigger] recs@[k],
                    lifecycle_model(post, recs@[k].id@),
                ) by {
                    if k < recs@.len() - 1 {
                        assert(ids_of(pre)[k] == recs@[k].id@);
                        assert(recs@[k].id@ != offers@[i as int].id@);
                    }
                }
            }
        }
        i = i + 1;
    }
    proof {
        assert(offers@.take(n as int) =~= offers@);
        lemma_ids_of_nodup(offers@);
    }
    recs
}

/// The observations of one identity, in batch order.
pub open spec fn filter_id(obs: Seq<Offer>, id: Seq<char>) -> Seq<Offer>
    decreases obs.len(),
{
    if obs.len() == 0 {
        Seq::empty()
    } else {
        let p = filter_id(obs.drop_last(), id);
        if obs.last().id@ == id {
            p.push(obs.last())
        } else {
            p
        }
    }
}

/// An identity's record depends only on that identity's observation
/// subsequence.
pub proof fn lemma_model_of_filter(obs: Seq<Offer>, id: Seq<char>)
    ensures
        lifecycle_model(obs, id) == lifecycle_model(filter_id(obs, id), id),
    decreases obs.len(),
{
    if obs.len() > 0 {
        lemma_model_of_filter(obs.drop_last(), id);
        if obs.last().id@ == id {
            let f = filter_id(obs, id);
            assert(f.drop_last() =~= filter_id(obs.drop_last(), id));
            assert(f.last() == obs.last());
        }
    }
}

/// The price-change count an identity contributes to a batch's total.
pub open spec fn model_changes(obs: Seq<Offer>, id: Seq<char>) -> int {
    match lifecycle_model(obs, id) {
        None => 0,
        Some(m) => m.changes,
    }
}

/// Total price-change count of a batch, summed identity by identity.
pub open spec fn sum_changes_over(ids: Seq<Seq<char>>, obs: Seq<Offer>) -> int
    decreases ids.len(),
{
    if ids.len() == 0 {
        0
    } else {
        sum_changes_over(ids.drop_last(), obs) + model_changes(obs, ids.last())
    }
}

/// Removing one identity from the list removes exactly its contribution.
proof fn lemma_sum_changes_over_remove(ids: Seq<Seq<char>>, obs: Seq<Offer>, k: int)
    requires
        0 <= k < ids.len(),
    ensures
        sum_changes_over(ids, obs) == sum_changes_over(ids.remove(k), obs) + model_changes(
            obs,
            ids[k],
        ),
    decreases ids.len(),
{
    if k == ids.len() - 1 {
        assert(ids.remove(k) =~= ids.drop_last());
    } else {
        lemma_sum_changes_over_remove(ids.drop_last(), obs, k);
        assert(ids.remove(k).drop_last() =~= ids.drop_last().remove(k));
        assert(ids.remove(k).last() == ids.last());
    }
}

/// Two duplicate-free identity lists with the same members give the same
/// total.
proof fn lemma_sum_changes_over_perm(ids1: Seq<Seq<char>>, ids2: Seq<Seq<char>>, obs: Seq<Offer>)
    requires
        forall|a: int, b: int| 0 <= a < b < ids1.len() ==> ids1[a] != ids1[b],
        forall|a: int, b: int| 0 <= a < b < ids2.len() ==> ids2[a] != ids2[b],
        forall|id: Seq<char>| ids1.contains(id) <==> ids2.contains(id),
    ensures
        sum_changes_over(ids1, obs) == sum_changes_over(ids2, obs),
    decreases ids1.len(),
{
    if ids1.len() == 0 {
        if ids2.len() > 0 {
            assert(ids1.contains(ids2[0]));
            assert(false);
        }
    } else {
        let x = ids1.last();
        assert(ids1.contains(x));
        assert(ids2.contains(x));
        let k = choose|k: int| 0 <= k < ids2.len() && ids2[k] == x;
        let ids1p = ids1.drop_last();
        let ids2p = ids2.remove(k);
        assert forall|a: int, b: int| 0 <= a < b < ids2p.len() implies ids2p[a] != ids2p[b] by {
            if b < k {
            } else if a < k {
                assert(ids2p[b] == ids2[b + 1]);
            } else {
                assert(ids2p[a] == ids2[a + 1] && ids2p[b] == ids2[b + 1]);
            }
        }
        assert forall|id: Seq<char>| ids1p.contains(id) implies ids2p.contains(id) by {
            let t = choose|t: int| 0 <= t < ids1p.len() && ids1p[t] == id;
            assert(ids1[t] == id);
            assert(id != x);
            assert(ids2.contains(id));
            let u = choose|u: int| 0 <= u < ids2.len() && ids2[u] == id;
            assert(u != k);
            if u < k {
                assert(ids2p[u] == id);
            } else {
                assert(ids2p[u - 1] == id);
            }
        }
        assert forall|id: Seq<char>| ids2p.contains(id) implies ids1p.contains(id) by {
            let u = choose|u: int| 0 <= u < ids2p.len() && ids2p[u] == id;
            if u < k {
                assert(ids2[u] == id);
            } else {
                assert(ids2[u + 1] == id);
            }
            assert(ids2.contains(id));
            assert(ids1.contains(id));
            let t = choose|t: int| 0 <= t < ids1.len() && ids1[t] == id;
            if id != x {
                assert(t < ids1p.len());
                assert(ids1p[t] == id);
            } else {
                assert(ids2[k] == x);
                if u < k {
                    assert(ids2[u] == x);
                    assert(false);
                } else {
                    assert(ids2[u + 1] == x);
                    assert(false);
                }
            }
        }
        lemma_sum_changes_over_perm(ids1p, ids2p, obs);
        lemma_sum_changes_over_remove(ids2, obs, k);
    }
}

/// With every identity's observation subsequence fixed, the total is the
/// same whatever the batch order.
proof fn lemma_sum_changes_over_same_obs(ids: Seq<Seq<char>>, b1: Seq<Offer>, b2: Seq<Offer>)
    requires
        forall|id: Seq<char>| #[trigger] filter_id(b1, id) == filter_id(b2, id),
    ensures
        sum_changes_over(ids, b1) == sum_changes_over(ids, b2),
    decreases ids.len(),
{
    if ids.len() > 0 {
        lemma_sum_changes_over_same_obs(ids.drop_last(), b1, b2);
        lemma_model_of_filter(b1, ids.last());
        lemma_model_of_filter(b2, ids.last());
        assert(filter_id(b1, ids.last()) == filter_id(b2, ids.last()));
    }
}

/// The total of a record set that matches a batch is the batch's total.
proof fn lemma_sum_changes_matches(recs: Seq<OfferLifecycle>, ids: Seq<Seq<char>>, obs: Seq<
    Offer,
>)
    requires
        recs.len() == ids.len(),
        forall|k: int| 0 <= k < recs.len() ==> (#[trigger] recs[k]).id@ == ids[k],
        forall|k: int| 0 <= k < recs.len() ==> rec_matches(
            #[trigger] recs[k],
            lifecycle_model(obs, recs[k].id@),
        ),
    ensures
        sum_changes(recs) == sum_changes_over(ids, obs),
    decreases recs.len(),
{
    if recs.len() > 0 {
        lemma_sum_changes_matches(recs.drop_last(), ids.drop_last(), obs);
    }
}

/// Law: the total price-change count of the built lifecycle records does
/// not depend on how the identities' observations are interleaved within
/// the batch.  Two batches that give every identity the same observation
/// subsequence, fed through the builder, yield the same total, whatever
/// the order of the records.
pub proof fn lemma_price_changes_order_invariant(
    b1: Seq<Offer>,
    b2: Seq<Offer>,
    r1: Seq<OfferLifecycle>,
    r2: Seq<OfferLifecycle>,
)
    requires
        forall|id: Seq<char>| #[trigger] filter_id(b1, id) == filter_id(b2, id),
        r1.len() == ids_of(b1).len(),
        forall|k: int| 0 <= k < r1.len() ==> (#[trigger] r1[k]).id@ == ids_of(b1)[k],
        forall|k: int| 0 <= k < r1.len() ==> rec_matches(
            #[trigger] r1[k],
            lifecycle_model(b1, r1[k].id@),
        ),
        r2.len() == ids_of(b2).len(),
        forall|k: int| 0 <= k < r2.len() ==> (#[trigger] r2[k]).id@ == ids_of(b2)[k],
        forall|k: int| 0 <= k < r2.len() ==> rec_matches(
            #[trigger] r2[k],
            lifecycle_model(b2, r2[k].id@),
        ),
    ensures
        sum_changes(r1) == sum_changes(r2),
{
    lemma_sum_changes_matches(r1, ids_of(b1), b1);
    lemma_sum_changes_matches(r2, ids_of(b2), b2);
    lemma_ids_of_nodup(b1);
    lemma_ids_of_nodup(b2);
    assert forall|id: Seq<char>| ids_of(b1).contains(id) implies ids_of(b2).contains(id) by {
        lemma_ids_model(b1, id);
        lemma_ids_model(b2, id);
        lemma_model_of_filter(b1, id);
        lemma_model_of_filter(b2, id);
        assert(filter_id(b1, id) == filter_id(b2, id));
    }
    assert forall|id: Seq<char>| ids_of(b2).contains(id) implies ids_of(b1).contains(id) by {
        lemma_ids_model(b1, id);
        lemma_ids_model(b2, id);
        lemma_model_of_filter(b1, id);
        lemma_model_of_filter(b2, id);
        assert(filter_id(b1, id) == filter_id(b2, id));
    }
    lemma_sum_changes_over_perm(ids_of(b1), ids_of(b2), b1);
    lemma_sum_changes_over_same_obs(ids_of(b2), b1, b2);
}

} // verus!
