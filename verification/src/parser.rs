//! The listing parser's data logic: the price-text grammar of the
//! marketplace ("1.234,56 €" to cents), the listing id taken from an ad
//! link, and the per-listing filter.  The HTML itself is dissected by an
//! outside collaborator, which hands these functions plain text.

use vstd::prelude::*;
use crate::model::{ModelConfig, MAX_PRICE_CENTS};
use crate::normalizer::{matches_any_keyword, model_matches};
use crate::utils::{chars_to_string, str_chars};

verus! {

/// Parses marketplace listings out of extracted text fields.
pub struct KleinanzeigenParser;

impl KleinanzeigenParser {
    pub fn new() -> Self {
        Self
    }
}

/// A decimal digit.
pub open spec fn is_digit(c: char) -> bool {
    48 <= c as int <= 57
}

/// The value of a decimal digit.
pub open spec fn digit_val(c: char) -> int {
    c as int - 48
}

/// Every character is a decimal digit.
pub open spec fn all_digits(s: Seq<char>) -> bool {
    forall|i: int| 0 <= i < s.len() ==> is_digit(#[trigger] s[i])
}

/// The number a digit string denotes.
pub open spec fn digits_val(s: Seq<char>) -> int
    decreases s.len(),
{
    if s.len() == 0 {
        0
    } else {
        10 * digits_val(s.drop_last()) + digit_val(s.last())
    }
}

/// A digit string denotes a non-negative number.
proof fn lemma_digits_val_nonneg(s: Seq<char>)
    requires
        all_digits(s),
    ensures
        0 <= digits_val(s),
    decreases s.len(),
{
    if s.len() > 0 {
        lemma_digits_val_nonneg(s.drop_last());
    }
}

/// The text with every euro sign and every thousands dot removed.
pub open spec fn cleaned(s: Seq<char>) -> Seq<char>
    decreases s.len(),
{
    if s.len() == 0 {
        Seq::empty()
    } else {
        let p = cleaned(s.drop_last());
        if s.last() == '\u{20ac}' || s.last() == '.' {
            p
        } else {
            p.push(s.last())
        }
    }
}

/// How many spaces the text starts with.
pub open spec fn lead_spaces(s: Seq<char>) -> int
    decreases s.len(),
{
    if s.len() > 0 && s[0] == ' ' {
        1 + lead_spaces(s.drop_first())
    } else {
        0
    }
}

/// How many spaces the text ends with.
pub open spec fn trail_spaces(s: Seq<char>) -> int
    decreases s.len(),
{
    if s.len() > 0 && s.last() == ' ' {
        1 + trail_spaces(s.drop_last())
    } else {
        0
    }
}

/// The text with leading and trailing spaces removed.
pub open spec fn trimmed(s: Seq<char>) -> Seq<char> {
    if lead_spaces(s) == s.len() {
        Seq::empty()
    } else {
        s.subrange(lead_spaces(s), s.len() - trail_spaces(s))
    }
}

/// The position of the first occurrence of `ch`, or the length.
pub open spec fn first_at(s: Seq<char>, ch: char) -> int
    decreases s.len(),
{
    if s.len() == 0 {
        0
    } else if s[0] == ch {
        0
    } else {
        1 + first_at(s.drop_first(), ch)
    }
}

proof fn lemma_lead_spaces(s: Seq<char>)
    ensures
        0 <= lead_spaces(s) <= s.len(),
        forall|k: int| 0 <= k < lead_spaces(s) ==> s[k] == ' ',
        lead_spaces(s) < s.len() ==> s[lead_spaces(s)] != ' ',
    decreases s.len(),
{
    if s.len() > 0 && s[0] == ' ' {
        let d = s.drop_first();
        lemma_lead_spaces(d);
        assert forall|k: int| 0 <= k < lead_spaces(s) implies s[k] == ' ' by {
            if k > 0 {
                assert(d[k - 1] == ' ');
            }
        }
        if lead_spaces(s) < s.len() {
            assert(d[lead_spaces(s) - 1] != ' ');
        }
    }
}

proof fn lemma_trail_spaces(s: Seq<char>)
    ensures
        0 <= trail_spaces(s) <= s.len(),
        forall|k: int| s.len() - trail_spaces(s) <= k < s.len() ==> s[k] == ' ',
        trail_spaces(s) < s.len() ==> s[s.len() - 1 - trail_spaces(s)] != ' ',
    decreases s.len(),
{
    if s.len() > 0 && s.last() == ' ' {
        let d = s.drop_last();
        lemma_trail_spaces(d);
        assert forall|k: int| s.len() - trail_spaces(s) <= k < s.len() implies s[k] == ' ' by {
            if k < s.len() - 1 {
                assert(d[k] == ' ');
            }
        }
        if trail_spaces(s) < s.len() {
            assert(d[d.len() - 1 - trail_spaces(d)] != ' ');
        }
    }
}

proof fn lemma_first_at(s: Seq<char>, ch: char)
    ensures
        0 <= first_at(s, ch) <= s.len(),
        forall|k: int| 0 <= k < first_at(s, ch) ==> s[k] != ch,
        first_at(s, ch) < s.len() ==> s[first_at(s, ch)] == ch,
    decreases s.len(),
{
    if s.len() > 0 && s[0] != ch {
        let d = s.drop_first();
        lemma_first_at(d, ch);
        assert forall|k: int| 0 <= k < first_at(s, ch) implies s[k] != ch by {
            if k > 0 {
                assert(d[k - 1] != ch);
            }
        }
        if first_at(s, ch) < s.len() {
            assert(d[first_at(s, ch) - 1] == ch);
        }
    }
}

/// The second places of a fractional part of up to two digits, in cents.
pub open spec fn frac_cents(f: Seq<char>) -> int {
    if f.len() == 0 {
        0
    } else if f.len() == 1 {
        10 * digit_val(f[0])
    } else {
        10 * digit_val(f[0]) + digit_val(f[1])
    }
}

/// The price a marketplace price text denotes, in cents.  Euro signs and
/// thousands dots are dropped, surrounding spaces trimmed; what remains
/// must be digits with at most one comma introducing at most two decimal
/// places, and not empty.  Anything else denotes no price.
pub open spec fn parsed_price_cents(s: Seq<char>) -> Option<int> {
    let t = trimmed(cleaned(s));
    let ci = first_at(t, ',');
    let int_part = t.subrange(0, ci);
    let frac = if ci == t.len() {
        Seq::<char>::empty()
    } else {
        t.subrange(ci + 1, t.len() as int)
    };
    if all_digits(int_part) && all_digits(frac) && frac.len() <= 2 && (int_part.len() > 0
        || frac.len() > 0) {
        Some(100 * digits_val(int_part) + frac_cents(frac))
    } else {
        None
    }
}

/// Whether a character is a decimal digit.
fn is_digit_char(c: char) -> (r: bool)
    ensures
        r == is_digit(c),
{
    let u = c as u32;
    48 <= u && u <= 57
}

/// The price a price text denotes, in cents; zero when the text denotes no
/// price or one beyond the engine's bound.
pub fn parse_price_cents(text: &str) -> (r: u64)
    ensures
        parsed_price_cents(text@) is None ==> r == 0,
        parsed_price_cents(text@) matches Some(v) ==> r == if v <= MAX_PRICE_CENTS {
            v
        } else {
            0
        },
{
    let chars = str_chars(text);
    let n = chars.len();
    let mut c: Vec<char> = Vec::new();
    let mut i: usize = 0;
    while i < n
        invariant
            n == chars@.len(),
            i <= n,
            c@ == cleaned(chars@.take(i as int)),
        decreases n - i,
    {
        proof {
            assert(chars@.take(i as int + 1).drop_last() =~= chars@.take(i as int));
        }
        let ch = chars[i];
        if ch != '\u{20ac}' && ch != '.' {
            c.push(ch);
        }
        i = i + 1;
    }
    proof {
        assert(chars@.take(n as int) =~= chars@);
        lemma_lead_spaces(c@);
        lemma_trail_spaces(c@);
    }
    let m = c.len();
    let mut start: usize = 0;
    while start < m && c[start] == ' '
        invariant
            m == c@.len(),
            start <= m,
            forall|k: int| 0 <= k < start ==> c@[k] == ' ',
        decreases m - start,
    {
        start = start + 1;
    }
    proof {
        if start < lead_spaces(c@) {
            assert(c@[start as int] == ' ');
            assert(false);
        }
        if lead_spaces(c@) < start {
            assert(c@[lead_spaces(c@)] == ' ');
            assert(false);
        }
        assert(start == lead_spaces(c@));
    }
    if start == m {
        proof {
            assert(trimmed(c@) =~= Seq::<char>::empty());
            assert(first_at(trimmed(c@), ',') == 0);
            assert(parsed_price_cents(text@) is None);
        }
        return 0;
    }
    let mut end: usize = m;
    while end > start && c[end - 1] == ' '
        invariant
            m == c@.len(),
            start <= end <= m,
            forall|k: int| end <= k < m ==> c@[k] == ' ',
        decreases end,
    {
        end = end - 1;
    }
    proof {
        assert(c@[start as int] != ' ');
        if end as int <= c@.len() - 1 - trail_spaces(c@) {
            assert(trail_spaces(c@) < c@.len());
            assert(c@[c@.len() - 1 - trail_spaces(c@)] == ' ');
            assert(false);
        }
        if (c@.len() - trail_spaces(c@)) < end as int {
            assert(end > start);
            assert(c@[end - 1] == ' ');
            assert(false);
        }
        assert(end == c@.len() - trail_spaces(c@));
        assert(trimmed(c@) =~= c@.subrange(start as int, end as int));
    }
    let ghost t = trimmed(c@);
    proof {
        lemma_first_at(t, ',');
    }
    let mut cj: usize = start;
    while cj < end && c[cj] != ','
        invariant
            m == c@.len(),
            start <= cj <= end <= m,
            forall|k: int| start <= k < cj ==> c@[k] != ',',
        decreases end - cj,
    {
        cj = cj + 1;
    }
    proof {
        assert(t.len() == end - start);
        assert(forall|k: int| 0 <= k < t.len() ==> t[k] == c@[start + k]);
        if (cj - start) < first_at(t, ',') {
            assert(t[cj - start as int] != ',');
            assert(false);
        }
        if first_at(t, ',') < (cj - start) {
            assert(t[first_at(t, ',')] == ',');
            assert(c@[start + first_at(t, ',')] == ',');
            assert(false);
        }
        assert(cj - start == first_at(t, ','));
        assert(t.subrange(0, cj - start as int) =~= c@.subrange(start as int, cj as int));
        if cj < end {
            assert(t.subrange(cj - start as int + 1, t.len() as int) =~= c@.subrange(
                cj as int + 1,
                end as int,
            ));
        }
    }
    let frac_start = if cj == end { end } else { cj + 1 };
    let frac_len = end - frac_start;
    if frac_len > 2 {
        return 0;
    }
    let mut int_ok = true;
    let mut j: usize = start;
    while j < cj
        invariant
            m == c@.len(),
            start <= j <= cj <= m,
            int_ok <==> forall|k: int| start <= k < j ==> is_digit(#[trigger] c@[k]),
        decreases cj - j,
    {
        if !is_digit_char(c[j]) {
            int_ok = false;
        }
        j = j + 1;
    }
    let mut frac_ok = true;
    let mut f: usize = frac_start;
    while f < end
        invariant
            m == c@.len(),
            frac_start <= f <= end <= m,
            frac_ok <==> forall|k: int| frac_start <= k < f ==> is_digit(#[trigger] c@[k]),
        decreases end - f,
    {
        if !is_digit_char(c[f]) {
            frac_ok = false;
        }
        f = f + 1;
    }
    let all_ok = int_ok && frac_ok;
    let ghost int_part = t.subrange(0, cj - start as int);
    let ghost frac = if cj == end {
        Seq::<char>::empty()
    } else {
        t.subrange(cj - start as int + 1, t.len() as int)
    };
    proof {
        assert(int_part =~= c@.subrange(start as int, cj as int));
        if cj < end {
            assert(frac =~= c@.subrange(cj as int + 1, end as int));
        }
        assert forall|k: int| 0 <= k < int_part.len() implies (is_digit(
            #[trigger] int_part[k],
        ) <==> is_digit(c@[start + k])) by {
            assert(int_part[k] == c@[start + k]);
        }
        assert forall|k: int| 0 <= k < frac.len() implies (is_digit(#[trigger] frac[k])
            <==> is_digit(c@[frac_start + k])) by {
            assert(frac[k] == c@[frac_start + k]);
        }
        assert(int_ok <==> all_digits(int_part)) by {
            if int_ok {
                assert forall|k: int| 0 <= k < int_part.len() implies is_digit(
                    #[trigger] int_part[k],
                ) by {
                    assert(is_digit(c@[start + k]));
                }
            } else {
                let k = choose|k: int| start <= k < cj && !is_digit(#[trigger] c@[k]);
                assert(!is_digit(int_part[k - start]));
            }
        }
        assert(frac_ok <==> all_digits(frac)) by {
            if frac_ok {
                assert forall|k: int| 0 <= k < frac.len() implies is_digit(#[trigger] frac[k])
                    by {
                    assert(is_digit(c@[frac_start + k]));
                }
            } else {
                let k = choose|k: int| frac_start <= k < end && !is_digit(#[trigger] c@[k]);
                assert(!is_digit(frac[k - frac_start]));
            }
        }
        assert(all_ok <==> all_digits(int_part) && all_digits(frac));
    }
    if !all_ok {
        return 0;
    }
    if cj == start && frac_len == 0 {
        return 0;
    }
    let cap: u128 = (MAX_PRICE_CENTS + 1) as u128;
    let mut val: u128 = 0;
    let mut j2: usize = start;
    proof {
        assert(c@.subrange(start as int, start as int) =~= Seq::<char>::empty());
        lemma_digits_val_nonneg(int_part);
    }
    while j2 < cj
        invariant
            m == c@.len(),
            start <= j2 <= cj <= m,
            cap == (MAX_PRICE_CENTS + 1) as u128,
            forall|k: int| start <= k < cj ==> is_digit(#[trigger] c@[k]),
            digits_val(c@.subrange(start as int, j2 as int)) <= MAX_PRICE_CENTS ==> val
                == digits_val(c@.subrange(start as int, j2 as int)),
            digits_val(c@.subrange(start as int, j2 as int)) > MAX_PRICE_CENTS ==> val == cap,
            0 <= digits_val(c@.subrange(start as int, j2 as int)),
            val <= cap,
        decreases cj - j2,
    {
        proof {
            assert(c@.subrange(start as int, j2 as int + 1).drop_last() =~= c@.subrange(
                start as int,
                j2 as int,
            ));
        }
        let d = (c[j2] as u32 - 48) as u128;
        let next = 10 * val + d;
        if next > MAX_PRICE_CENTS as u128 {
            val = cap;
        } else {
            val = next;
        }
        j2 = j2 + 1;
    }
    proof {
        assert(c@.subrange(start as int, cj as int) =~= int_part);
    }
    let mut fv: u64 = 0;
    if frac_len == 1 {
        fv = 10 * (c[frac_start] as u32 - 48) as u64;
    } else if frac_len == 2 {
        fv = 10 * (c[frac_start] as u32 - 48) as u64 + (c[frac_start + 1] as u32 - 48) as u64;
    }
    proof {
        assert(fv == frac_cents(frac));
        assert(0 <= frac_cents(frac) < 100);
    }
    if val >= cap {
        return 0;
    }
    let total: u128 = 100 * val + fv as u128;
    if total > MAX_PRICE_CENTS as u128 {
        return 0;
    }
    total as u64
}

/// The position just after the last slash, or zero.
pub open spec fn after_last_slash(s: Seq<char>) -> int
    decreases s.len(),
{
    if s.len() == 0 {
        0
    } else if s.last() == '/' {
        s.len() as int
    } else {
        after_last_slash(s.drop_last())
    }
}

/// The listing id an ad link carries: the last path segment up to its
/// first dash.
pub open spec fn offer_id_of(link: Seq<char>) -> Seq<char> {
    let seg = link.subrange(after_last_slash(link), link.len() as int);
    seg.subrange(0, first_at(seg, '-'))
}

proof fn lemma_after_last_slash(s: Seq<char>)
    ensures
        0 <= after_last_slash(s) <= s.len(),
        after_last_slash(s) > 0 ==> s[after_last_slash(s) - 1] == '/',
        forall|k: int| after_last_slash(s) <= k < s.len() ==> s[k] != '/',
    decreases s.len(),
{
    if s.len() > 0 && s.last() != '/' {
        let d = s.drop_last();
        lemma_after_last_slash(d);
        assert forall|k: int| after_last_slash(s) <= k < s.len() implies s[k] != '/' by {
            if k < s.len() - 1 {
                assert(d[k] != '/');
            }
        }
    }
}

/// The listing id of an ad link: the last path segment of the link, up to
/// its first dash.
pub fn extract_offer_id(link: &str) -> (r: String)
    ensures
        r@ == offer_id_of(link@),
{
    let chars = str_chars(link);
    let n = chars.len();
    proof {
        lemma_after_last_slash(chars@);
    }
    let mut seg_start: usize = n;
    while seg_start > 0 && chars[seg_start - 1] != '/'
        invariant
            n == chars@.len(),
            seg_start <= n,
            forall|k: int| seg_start <= k < n ==> chars@[k] != '/',
        decreases seg_start,
    {
        seg_start = seg_start - 1;
    }
    proof {
        if (seg_start as int) < after_last_slash(chars@) {
            assert(chars@[after_last_slash(chars@) - 1] == '/');
            assert(false);
        }
        if after_last_slash(chars@) < seg_start as int {
            assert(seg_start > 0);
            assert(chars@[seg_start - 1] == '/');
            assert(false);
        }
        assert(seg_start as int == after_last_slash(chars@));
    }
    let ghost seg = chars@.subrange(seg_start as int, n as int);
    proof {
        lemma_first_at(seg, '-');
    }
    let mut seg_end: usize = seg_start;
    while seg_end < n && chars[seg_end] != '-'
        invariant
            n == chars@.len(),
            seg_start <= seg_end <= n,
            forall|k: int| seg_start <= k < seg_end ==> chars@[k] != '-',
        decreases n - seg_end,
    {
        seg_end = seg_end + 1;
    }
    proof {
        assert(seg.len() == n - seg_start);
        assert(forall|k: int| 0 <= k < seg.len() ==> seg[k] == chars@[seg_start + k]);
        if (seg_end - seg_start) < first_at(seg, '-') {
            assert(seg[seg_end - seg_start as int] != '-');
            assert(false);
        }
        if first_at(seg, '-') < (seg_end - seg_start) {
            assert(seg[first_at(seg, '-')] == '-');
            assert(false);
        }
        assert(first_at(seg, '-') == seg_end - seg_start);
    }
    let mut id: Vec<char> = Vec::new();
    let mut k: usize = seg_start;
    while k < seg_end
        invariant
            n == chars@.len(),
            seg_start <= k <= seg_end <= n,
            id@ == chars@.subrange(seg_start as int, k as int),
        decreases seg_end - k,
    {
        proof {
            assert(chars@.subrange(seg_start as int, k as int + 1).drop_last() =~= chars@
                .subrange(seg_start as int, k as int));
        }
        id.push(chars[k]);
        k = k + 1;
    }
    proof {
        assert(seg == link@.subrange(after_last_slash(link@), link@.len() as int));
        assert(offer_id_of(link@) == seg.subrange(0, seg_end - seg_start as int));
        assert(id@ =~= offer_id_of(link@));
    }
    chars_to_string(&id)
}

/// Whether a parsed listing passes the configured filter: price within the
/// configured bounds and some keyword of the model in the title.
pub open spec fn passes_filter(price_cents: u64, title: Seq<char>, cfg: ModelConfig) -> bool {
    &&& cfg.min_price <= price_cents <= cfg.max_price
    &&& model_matches(title, cfg)
}

impl KleinanzeigenParser {
    /// Whether a listing with the given price and title passes the
    /// configured bounds-and-keyword filter.
    pub fn passes_filters(&self, price_cents: u64, title: &str, cfg: &ModelConfig) -> (r: bool)
        ensures
            r == passes_filter(price_cents, title@, *cfg),
    {
        cfg.min_price <= price_cents && price_cents <= cfg.max_price && matches_any_keyword(
            title,
            cfg,
        )
    }
}

} // verus!
