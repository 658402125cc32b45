//! The fetching collaborator's interface, and the pure decision its page
//! loop turns on.

use vstd::prelude::*;
use crate::model::{ScrapeRequest, ScraperError};

verus! {

/// A page fetcher: turns a scrape request into the collected HTML of the
/// result pages.  Implemented by the I/O collaborator.
pub trait Scraper {
    fn fetch(&self, req: &ScrapeRequest) -> Result<String, ScraperError>;
}

/// The page loop stops early when a page opens with the same ad as the
/// page before: the listing has run out and the site is repeating itself.
pub open spec fn spec_duplicate_page(
    current_first: Option<Seq<char>>,
    previous_first: Option<Seq<char>>,
) -> bool {
    current_first matches Some(c) && previous_first matches Some(p) && c == p
}

/// Whether the page just fetched repeats the previous page's first ad.
pub fn is_duplicate_page(current_first: Option<&String>, previous_first: Option<&String>) -> (r:
    bool)
    ensures
        r == spec_duplicate_page(
            match current_first {
                Some(c) => Some(c@),
                None => None,
            },
            match previous_first {
                Some(p) => Some(p@),
                None => None,
            },
        ),
{
    match (current_first, previous_first) {
        (Some(c), Some(p)) => *c == *p,
        _ => false,
    }
}

} // verus!
