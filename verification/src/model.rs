//! Core data types of the engine and the validity bounds its arithmetic
//! rests on.

use vstd::prelude::*;

verus! {

/// Largest price the engine accepts, in cents (four billion currency units).
/// Keeps every intermediate product of the statistics within `i128`/`u128`
/// and the whole-unit price buckets within `u32`.
pub const MAX_PRICE_CENTS: u64 = 400_000_000_000;

/// Largest magnitude of a timestamp, in Unix seconds.  Covers every instant
/// a calendar date can denote, with room to spare.
pub const MAX_TS: i64 = 10_000_000_000_000;

/// Largest listing batch one analysis cycle accepts.
pub const MAX_BATCH: usize = 10_000;

/// One observed marketplace listing at a point in time.
///
/// `price_cents` is the asking price in whole cents; `posted_at` and
/// `fetched_at` are Unix seconds.
pub struct Offer {
    pub id: String,
    pub title: String,
    pub description: String,
    pub price_cents: u64,
    pub location: String,
    pub model: String,
    pub link: String,
    pub posted_at: i64,
    pub fetched_at: i64,
    pub user_id: Option<String>,
    pub user_name: Option<String>,
    pub user_url: Option<String>,
}

/// An offer the engine's arithmetic can digest: price and timestamps within
/// the global bounds.
pub open spec fn valid_offer(o: Offer) -> bool {
    &&& o.price_cents <= MAX_PRICE_CENTS
    &&& -MAX_TS <= o.posted_at <= MAX_TS
    &&& -MAX_TS <= o.fetched_at <= MAX_TS
}

/// A batch of offers one analysis cycle works on.
pub open spec fn valid_batch(s: Seq<Offer>) -> bool {
    &&& s.len() <= MAX_BATCH
    &&& forall|i: int| 0 <= i < s.len() ==> valid_offer(#[trigger] s[i])
}

impl Clone for Offer {
    fn clone(&self) -> (res: Self)
        ensures
            res == *self,
    {
        Offer {
            id: self.id.clone(),
            title: self.title.clone(),
            description: self.description.clone(),
            price_cents: self.price_cents,
            location: self.location.clone(),
            model: self.model.clone(),
            link: self.link.clone(),
            posted_at: self.posted_at,
            fetched_at: self.fetched_at,
            user_id: self.user_id.clone(),
            user_name: self.user_name.clone(),
            user_url: self.user_url.clone(),
        }
    }
}

/// Aggregated view of all observations of one listing identity within a
/// cycle: the current (last observed) price, the earliest and latest
/// observation timestamps and the number of observed price transitions.
pub struct OfferLifecycle {
    pub id: String,
    pub price_cents: u64,
    pub first_seen: i64,
    pub last_seen: i64,
    pub price_changes: u64,
}

/// A lifecycle record the indicator functions can digest.  `first_seen <=
/// last_seen` is the structural invariant of the type; the price-change
/// count is bounded by the batch that produced the record.
pub open spec fn wf_lifecycle(r: OfferLifecycle) -> bool {
    &&& r.price_cents <= MAX_PRICE_CENTS
    &&& -MAX_TS <= r.first_seen <= MAX_TS
    &&& -MAX_TS <= r.last_seen <= MAX_TS
    &&& r.first_seen <= r.last_seen
    &&& r.price_changes <= MAX_BATCH
}

/// A collection of lifecycle records from one cycle.
pub open spec fn wf_lifecycles(s: Seq<OfferLifecycle>) -> bool {
    &&& s.len() <= MAX_BATCH
    &&& forall|i: int| 0 <= i < s.len() ==> wf_lifecycle(#[trigger] s[i])
}

impl Clone for OfferLifecycle {
    fn clone(&self) -> (res: Self)
        ensures
            res == *self,
    {
        OfferLifecycle {
            id: self.id.clone(),
            price_cents: self.price_cents,
            first_seen: self.first_seen,
            last_seen: self.last_seen,
            price_changes: self.price_changes,
        }
    }
}

/// Per-product price statistics of one analysis cycle.  `avg_price` and
/// `std_dev` are in cents.
pub struct ModelStats {
    pub model: String,
    pub avg_price: u64,
    pub std_dev: u64,
    pub last_updated: i64,
}

impl Clone for ModelStats {
    fn clone(&self) -> (res: Self)
        ensures
            res == *self,
    {
        ModelStats {
            model: self.model.clone(),
            avg_price: self.avg_price,
            std_dev: self.std_dev,
            last_updated: self.last_updated,
        }
    }
}

/// Per-product configuration for scraping and deal classification.
///
/// `deviation_milli` is the relative drop threshold in thousandths (150
/// stands for a 15 % drop); the price fields are cents.
pub struct ModelConfig {
    pub query: String,
    pub category_id: String,
    pub deviation_milli: u32,
    pub min_price_delta: u64,
    pub min_price: u64,
    pub max_price: u64,
    pub match_keywords: Vec<String>,
    pub volatility_threshold: u64,
}

/// A request handed to the scraping collaborator.
pub struct ScrapeRequest {
    pub query: String,
    pub category_id: String,
}

impl Clone for ScrapeRequest {
    fn clone(&self) -> (res: Self)
        ensures
            res == *self,
    {
        ScrapeRequest { query: self.query.clone(), category_id: self.category_id.clone() }
    }
}

/// Failures of the page-fetching collaborator.
#[derive(Debug)]
pub enum ScraperError {
    HttpError(String),
    InvalidResponse(String),
    HtmlParseError(String),
}

/// Failures of the listing parser.
#[derive(Debug)]
pub enum ParserError {
    HtmlParseError(String),
    MissingField(String),
}

/// Failures of the storage collaborator.
#[derive(Debug)]
pub enum StorageError {
    DatabaseError(String),
    NotFound,
    ParseError(String),
}

/// Failures of the notification collaborator.
#[derive(Debug)]
pub enum NotifyError {
    ApiError(String),
    Unreachable,
}

/// Failure of `calculate_stats`: statistics over a batch without a single
/// positively priced offer are undefined.
#[derive(Debug, PartialEq, Eq, Structural)]
pub enum StatsError {
    EmptyInput,
}

} // verus!
