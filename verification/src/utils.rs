//! Text and time helpers, and the crate's trusted boundary to `chrono` and
//! to the parts of `str` that vstd gives no specification for.

use vstd::prelude::*;
use crate::model::MAX_TS;

verus! {

/// What `str::to_lowercase` returns on a text: a function of the
/// characters alone.
pub uninterp spec fn lower_of(s: Seq<char>) -> Seq<char>;

/// Relies on `str::to_lowercase`: the result depends on the characters
/// alone, and an empty text stays empty.
#[verifier::external_body]
pub(crate) fn lowercase(s: &str) -> (r: String)
    ensures
        r@ == lower_of(s@),
        s@.len() == 0 ==> r@.len() == 0,
{
    s.to_lowercase()
}

/// `n` occurs in `h` as a contiguous substring.
pub open spec fn contains_seq(h: Seq<char>, n: Seq<char>) -> bool {
    exists|i: int| 0 <= i <= h.len() - n.len() && #[trigger] h.subrange(i, i + n.len()) == n
}

/// Relies on `str::contains` with a string pattern: true exactly when the
/// needle occurs as a contiguous substring of the haystack.
#[verifier::external_body]
pub(crate) fn contains_str(h: &str, n: &str) -> (r: bool)
    ensures
        r == contains_seq(h@, n@),
{
    h.contains(n)
}

/// The text with every space turned into a dash.
pub open spec fn dashed(s: Seq<char>) -> Seq<char> {
    s.map_values(|c: char| if c == ' ' { '-' } else { c })
}

/// Relies on `str::replace` with a single-character pattern and a
/// single-character replacement: a character-by-character substitution.
#[verifier::external_body]
fn replace_spaces(s: &str) -> (r: String)
    ensures
        r@ == dashed(s@),
{
    s.replace(' ', "-")
}

/// Lower-cases a text and joins its words with dashes, as the scrape URLs
/// want it.
pub fn to_kebab_case(text: &str) -> (r: String)
    ensures
        r@ == dashed(lower_of(text@)),
{
    let lower = lowercase(text);
    replace_spaces(lower.as_str())
}

/// What chrono's RFC 3339 parse yields on a text, as Unix seconds: a
/// function of the characters alone.
pub uninterp spec fn rfc3339_epoch(s: Seq<char>) -> Option<i64>;

/// Relies on `chrono::DateTime::parse_from_rfc3339` and `timestamp()`: the
/// parse depends on the text alone, and every chrono timestamp lies well
/// within the engine's global bound (chrono dates reach about a quarter
/// million years from the epoch, some 8.2e12 seconds).
#[verifier::external_body]
pub fn parse_datetime(date_str: &str) -> (r: Option<i64>)
    ensures
        r == rfc3339_epoch(date_str@),
        r matches Some(t) ==> -MAX_TS <= t <= MAX_TS,
{
    chrono::DateTime::parse_from_rfc3339(date_str).ok().map(|dt| dt.timestamp())
}

/// Relies on `chrono::Utc::now` and `timestamp()`: some instant within
/// chrono's representable range; nothing more can be said of a clock.
#[verifier::external_body]
pub(crate) fn now_ts() -> (r: i64)
    ensures
        -MAX_TS <= r <= MAX_TS,
{
    chrono::Utc::now().timestamp()
}

/// Relies on `str::chars` collected into a vector: the characters of the
/// text, in order.
#[verifier::external_body]
pub(crate) fn str_chars(s: &str) -> (v: Vec<char>)
    ensures
        v@ == s@,
{
    s.chars().collect()
}

/// Relies on `String::from_iter` over characters: the text with exactly
/// those characters, in order.
#[verifier::external_body]
pub(crate) fn chars_to_string(v: &Vec<char>) -> (s: String)
    ensures
        s@ == v@,
{
    v.iter().collect()
}

} // verus!
