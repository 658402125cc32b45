//! Market-analysis engine for a classifieds watcher.
//!
//! The crate turns batches of observed listings ("offers") into per-product
//! statistics, market indicators and a filtered list of deals.  All money
//! amounts are carried as whole cents (`u64`), timestamps as Unix seconds
//! (`i64`) and durations as whole seconds: the engine's arithmetic is exact
//! integer arithmetic, so every function body is verified against its
//! contract.  Conversion from and to the wire formats (decimal price strings,
//! RFC 3339 dates) happens at the edges.

pub mod lifecycle;
pub mod market_indicators;
pub mod model;
pub mod normalizer;
pub mod notify;
pub mod numeric;
pub mod parser;
pub mod price_analysis;
pub mod scraper;
pub mod utils;
