//! Assigns each raw offer to a configured product: the first configured
//! model one of whose keywords occurs in the lower-cased title wins;
//! otherwise the offer is labelled unknown.  A preprocessing stage run
//! before lifecycle building.

use vstd::prelude::*;
use vstd::string::StringExecFns;
use crate::model::{ModelConfig, Offer};
use crate::utils::{contains_seq, contains_str, lower_of, lowercase};

verus! {

/// One of the model's keywords occurs in the lower-cased title
/// (keywords are matched lower-cased as well).
pub open spec fn model_matches(title: Seq<char>, m: ModelConfig) -> bool {
    exists|k: int| 0 <= k < m.match_keywords@.len() && contains_seq(
        lower_of(title),
        lower_of((#[trigger] m.match_keywords@[k])@),
    )
}

/// The label the models from position `i` on give the title: the query of
/// the first matching model, or "unknown".
pub open spec fn classify_from(title: Seq<char>, models: Seq<ModelConfig>, i: int) -> Seq<char>
    decreases models.len() - i,
    when 0 <= i <= models.len()
{
    if i >= models.len() {
        "unknown"@
    } else if model_matches(title, models[i]) {
        models[i].query@
    } else {
        classify_from(title, models, i + 1)
    }
}

/// The product label a title is classified as.
pub open spec fn classified_model(title: Seq<char>, models: Seq<ModelConfig>) -> Seq<char> {
    classify_from(title, models, 0)
}

/// Whether any keyword of the model occurs in the lower-cased title.
pub fn matches_any_keyword(title: &str, m: &ModelConfig) -> (r: bool)
    ensures
        r == model_matches(title@, *m),
{
    let title_lower = lowercase(title);
    let n = m.match_keywords.len();
    let mut k: usize = 0;
    let mut found = false;
    while k < n
        invariant
            n == m.match_keywords@.len(),
            k <= n,
            title_lower@ == lower_of(title@),
            found <==> exists|t: int| 0 <= t < k && contains_seq(
                lower_of(title@),
                lower_of((#[trigger] m.match_keywords@[t])@),
            ),
        decreases n - k,
    {
        let kw_lower = lowercase(m.match_keywords[k].as_str());
        if contains_str(title_lower.as_str(), kw_lower.as_str()) {
            found = true;
        }
        k = k + 1;
    }
    found
}

/// Classifies a title against the configured models: the query of the
/// first model with a matching keyword, or "unknown".
pub fn classify_model(title: &str, models: &Vec<ModelConfig>) -> (r: String)
    ensures
        r@ == classified_model(title@, models@),
{
    let n = models.len();
    let mut i: usize = 0;
    while i < n
        invariant
            n == models@.len(),
            i <= n,
            classified_model(title@, models@) == classify_from(title@, models@, i as int),
        decreases n - i,
    {
        if matches_any_keyword(title, &models[i]) {
            return models[i].query.clone();
        }
        i = i + 1;
    }
    String::from_str("unknown")
}

/// The two offers agree on every field but the product label.
pub open spec fn eq_except_model(a: Offer, b: Offer) -> bool {
    &&& a.id == b.id
    &&& a.title == b.title
    &&& a.description == b.description
    &&& a.price_cents == b.price_cents
    &&& a.location == b.location
    &&& a.link == b.link
    &&& a.posted_at == b.posted_at
    &&& a.fetched_at == b.fetched_at
    &&& a.user_id == b.user_id
    &&& a.user_name == b.user_name
    &&& a.user_url == b.user_url
}

/// Relabels every offer of the batch by its title; nothing else changes.
pub fn normalize_all(offers: &mut Vec<Offer>, models: &Vec<ModelConfig>)
    ensures
        final(offers)@.len() == old(offers)@.len(),
        forall|i: int| 0 <= i < old(offers)@.len() ==> eq_except_model(
            #[trigger] final(offers)@[i],
            old(offers)@[i],
        ) && final(offers)@[i].model@ == classified_model(old(offers)@[i].title@, models@),
{
    let ghost orig = offers@;
    let n = offers.len();
    let mut i: usize = 0;
    while i < n
        invariant
            n == offers@.len(),
            orig.len() == n,
            i <= n,
            forall|k: int| i <= k < n ==> offers@[k] == orig[k],
            forall|k: int| 0 <= k < i ==> eq_except_model(#[trigger] offers@[k], orig[k])
                && offers@[k].model@ == classified_model(orig[k].title@, models@),
        decreases n - i,
    {
        let new_model = classify_model(offers[i].title.as_str(), models);
        let mut o = offers[i].clone();
        o.model = new_model;
        offers.set(i, o);
        i = i + 1;
    }
}

} // verus!
