//! The listing extractor's decisions for one item-variant: which result
//! rows to keep, when to stop early at the watermark, and how to read a
//! row's date, price, identifier and buying format.
//!
//! The browser itself is an external collaborator; everything here works on
//! the text it hands back, so the whole algorithm is checked against these
//! contracts and can be driven against any transport.
use vstd::prelude::*;

use chrono::Datelike;

use crate::catalog::Class;
use crate::money;
use crate::money::Currency;
use crate::money::Money;
use crate::money::ParseOutcome;
use crate::text;

verus! {

/// A calendar date as plain values, ordered year, then month, then day.
#[derive(Debug, Clone, Copy, PartialEq, Eq, Structural)]
pub struct SaleDate {
    pub year: i32,
    pub month: u32,
    pub day: u32,
}

impl SaleDate {
    pub open spec fn spec_before(self, o: SaleDate) -> bool {
        ||| self.year < o.year
        ||| (self.year == o.year && self.month < o.month)
        ||| (self.year == o.year && self.month == o.month && self.day < o.day)
    }

    /// Strictly earlier in calendar order.
    pub fn before(&self, o: &SaleDate) -> (r: bool)
        ensures
            r == self.spec_before(*o),
    {
        self.year < o.year || (self.year == o.year && self.month < o.month) || (self.year
            == o.year && self.month == o.month && self.day < o.day)
    }
}

/// What `chrono` reads out of a day-month-year caption; a function of the
/// text alone, so it is only named, never written out.
pub uninterp spec fn date_of_text(s: Seq<char>) -> Option<(i32, u32, u32)>;

/// Relies on `chrono::NaiveDate::parse_from_str` with the marketplace's
/// day-month-year caption format; chrono yields only calendar-valid
/// month and day numbers.
#[verifier::external_body]
fn parse_date_text(s: &str) -> (r: Option<SaleDate>)
    ensures
        match date_of_text(s@) {
            Some(t) => {
                &&& r == Some(SaleDate { year: t.0, month: t.1, day: t.2 })
                &&& 1 <= t.1 <= 12
                &&& 1 <= t.2 <= 31
            },
            None => r is None,
        },
{
    match chrono::NaiveDate::parse_from_str(s, "%-d %b %Y") {
        Ok(d) => Some(SaleDate { year: d.year(), month: d.month(), day: d.day() }),
        Err(_) => None,
    }
}

/// The caption with every leading `"Sold "` prefix removed.
pub open spec fn strip_sold(s: Seq<char>) -> Seq<char>
    decreases s.len(),
{
    if s.len() >= 5 && s.take(5) == "Sold "@ {
        strip_sold(s.skip(5))
    } else {
        s
    }
}

/// Removes repeated `"Sold "` prefixes, as `trim_start_matches` does.
#[verifier::loop_isolation(false)]
fn strip_sold_prefix(cs: &Vec<char>) -> (r: Vec<char>)
    ensures
        r@ == strip_sold(cs@),
{
    proof {
        reveal_strlit("Sold ");
    }
    let sold = text::chars_of("Sold ");
    let mut start: usize = 0;
    proof {
        assert(cs@.skip(0) =~= cs@);
    }
    while cs.len() - start >= 5 && cs[start] == sold[0] && cs[start + 1] == sold[1] && cs[start
        + 2] == sold[2] && cs[start + 3] == sold[3] && cs[start + 4] == sold[4]
        invariant
            start <= cs.len(),
            strip_sold(cs@) == strip_sold(cs@.skip(start as int)),
        decreases cs.len() - start,
    {
        proof {
            assert(cs@.skip(start as int).take(5) =~= "Sold "@);
            assert(cs@.skip(start as int).skip(5) =~= cs@.skip(start + 5));
        }
        start += 5;
    }
    let mut out: Vec<char> = Vec::new();
    let mut i = start;
    while i < cs.len()
        invariant
            start <= i <= cs.len(),
            out@ == cs@.skip(start as int).take(i - start),
        decreases cs.len() - i,
    {
        out.push(cs[i]);
        i += 1;
        proof {
            assert(cs@.skip(start as int).take(i - start) =~= cs@.skip(start as int).take(
                i - 1 - start,
            ).push(cs@[i - 1]));
        }
    }
    proof {
        assert(cs@.skip(start as int).take(cs@.len() - start) =~= cs@.skip(start as int));
        // The loop stopped because the next five characters are not "Sold ",
        // so stripping the remainder leaves it unchanged.
        let rest = cs@.skip(start as int);
        if rest.len() >= 5 && rest.take(5) == "Sold "@ {
            assert(cs@[start as int] == rest.take(5)[0]);
            assert(cs@[start + 1] == rest.take(5)[1]);
            assert(cs@[start + 2] == rest.take(5)[2]);
            assert(cs@[start + 3] == rest.take(5)[3]);
            assert(cs@[start + 4] == rest.take(5)[4]);
            assert(false);
        }
    }
    out
}

/// Parses a sale caption: strip the `"Sold "` prefix, then read the date.
pub fn parse_sale_date(caption: &str) -> (r: Option<SaleDate>)
    ensures
        match date_of_text(strip_sold(caption@)) {
            Some(t) => {
                &&& r == Some(SaleDate { year: t.0, month: t.1, day: t.2 })
                &&& 1 <= t.1 <= 12
                &&& 1 <= t.2 <= 31
            },
            None => r is None,
        },
{
    let cs = text::chars_of(caption);
    let stripped = strip_sold_prefix(&cs);
    let s = text::string_from_chars(&stripped);
    parse_date_text(s.as_str())
}

/// A title is accepted when, lowercased, it contains the lowercased card
/// name outright, or contains every whitespace-delimited token of it.
pub open spec fn spec_title_matches(title_low: Seq<char>, name_low: Seq<char>) -> bool {
    text::contains_seq(title_low, name_low) || text::all_tokens_contained(title_low, name_low)
}

/// Checks the title against the card name, case-insensitively.
pub fn title_matches(title: &str, name: &str) -> (r: bool)
    ensures
        r == spec_title_matches(text::lower_of(title@), text::lower_of(name@)),
{
    let tl = text::lowercase(title);
    let nl = text::lowercase(name);
    let tlc = text::chars_of(tl.as_str());
    let nlc = text::chars_of(nl.as_str());
    text::contains_chars(&tlc, &nlc) || text::tokens_contained(&tlc, &nlc)
}

/// Cue words that reject a title for a class: a `Regular` listing must not
/// read as a reverse holo, a `ReverseHolo` listing must not read as
/// regular, and `Foil` rejects nothing.
pub open spec fn spec_blacklisted(class: Class, title_low: Seq<char>) -> bool {
    match class {
        Class::Regular => text::contains_seq(title_low, "reverse holo"@) || text::contains_seq(
            title_low,
            "reverse"@,
        ),
        Class::ReverseHolo => text::contains_seq(title_low, "regular"@),
        Class::Foil => false,
    }
}

/// Cue words a title must carry for a class: only `ReverseHolo` demands
/// one; `Regular` and `Foil` deliberately have no positive rule.
pub open spec fn spec_missing_cue(class: Class, title_low: Seq<char>) -> bool {
    match class {
        Class::Regular => false,
        Class::ReverseHolo => !(text::contains_seq(title_low, "reverse holo"@)
            || text::contains_seq(title_low, "holo"@) || text::contains_seq(
            title_low,
            "reverse"@,
        )),
        Class::Foil => false,
    }
}

/// Both textual variant rules at once: accepted unless blacklisted or
/// missing a required cue.
pub open spec fn spec_variant_accepts(class: Class, title_low: Seq<char>) -> bool {
    !spec_blacklisted(class, title_low) && !spec_missing_cue(class, title_low)
}

/// Applies the variant-classification text rules to a title.
pub fn variant_accepts(class: &Class, title: &str) -> (r: bool)
    ensures
        r == spec_variant_accepts(*class, text::lower_of(title@)),
{
    let tl = text::lowercase(title);
    let tlc = text::chars_of(tl.as_str());
    let reverse_holo = text::chars_of("reverse holo");
    let reverse = text::chars_of("reverse");
    let regular = text::chars_of("regular");
    let holo = text::chars_of("holo");
    let blacklisted = match class {
        Class::Regular => text::contains_chars(&tlc, &reverse_holo) || text::contains_chars(
            &tlc,
            &reverse,
        ),
        Class::ReverseHolo => text::contains_chars(&tlc, &regular),
        Class::Foil => false,
    };
    if blacklisted {
        return false;
    }
    let missing = match class {
        Class::Regular => false,
        Class::ReverseHolo => !(text::contains_chars(&tlc, &reverse_holo)
            || text::contains_chars(&tlc, &holo) || text::contains_chars(&tlc, &reverse)),
        Class::Foil => false,
    };
    !missing
}

pub open spec fn is_last_at(s: Seq<char>, x: char, i: int) -> bool {
    &&& 0 <= i < s.len()
    &&& s[i] == x
    &&& forall|j: int| i < j < s.len() ==> s[j] != x
}

proof fn lemma_last_at_unique(s: Seq<char>, x: char, i: int, j: int)
    requires
        is_last_at(s, x, i),
        is_last_at(s, x, j),
    ensures
        i == j,
{
}

/// The link up to (not including) the first query marker.
pub open spec fn link_before_query(link: Seq<char>) -> Seq<char> {
    if money::has_char(link, '?') {
        link.take(choose|i: int| money::is_first_at(link, '?', i))
    } else {
        link
    }
}

/// The final path component of the trimmed link.
pub open spec fn last_segment(pre: Seq<char>) -> Seq<char> {
    if money::has_char(pre, '/') {
        pre.skip((choose|i: int| is_last_at(pre, '/', i)) + 1)
    } else {
        pre
    }
}

/// The external identifier: the final path component of the link before
/// any query string, read as an unsigned integer.
pub open spec fn spec_listing_id(link: Seq<char>) -> Option<u64> {
    money::parse_u64_seq(last_segment(link_before_query(link)))
}

/// Extracts the external listing identifier from the canonical link.
#[verifier::loop_isolation(false)]
pub fn parse_listing_id(link: &str) -> (r: Option<u64>)
    ensures
        r == spec_listing_id(link@),
{
    let cs = text::chars_of(link);
    // Cut at the first '?'.
    let mut cut: usize = cs.len();
    let mut i: usize = 0;
    while i < cs.len()
        invariant
            i <= cs.len(),
            cut == cs.len() || (cut < i && cs@[cut as int] == '?' && forall|j: int|
                0 <= j < cut ==> cs@[j] != '?'),
            cut == cs.len() ==> forall|j: int| 0 <= j < i ==> cs@[j] != '?',
            cut <= cs.len(),
        decreases cs.len() - i,
    {
        if cut == cs.len() && cs[i] == '?' {
            cut = i;
        }
        i += 1;
    }
    let ghost pre = link_before_query(cs@);
    proof {
        if cut < cs.len() {
            assert(money::has_char(cs@, '?')) by {
                assert(cs@[cut as int] == '?');
            }
            let fi = choose|t: int| money::is_first_at(cs@, '?', t);
            assert(money::is_first_at(cs@, '?', cut as int));
            money::lemma_first_at_unique(cs@, '?', fi, cut as int);
        } else {
            assert(!money::has_char(cs@, '?')) by {
                if money::has_char(cs@, '?') {
                    let t = choose|t: int| 0 <= t < cs@.len() && cs@[t] == '?';
                    assert(cs@[t] != '?');
                }
            }
            assert(cs@.take(cut as int) =~= cs@);
        }
        assert(pre == cs@.take(cut as int));
    }
    // Find the last '/' in the prefix.
    let mut slash: Option<usize> = None;
    let mut k: usize = 0;
    while k < cut
        invariant
            k <= cut <= cs.len(),
            match slash {
                None => forall|j: int| 0 <= j < k ==> pre[j] != '/',
                Some(p) => {
                    &&& p < k
                    &&& pre[p as int] == '/'
                    &&& forall|j: int| p < j < k ==> pre[j] != '/'
                },
            },
        decreases cut - k,
    {
        if cs[k] == '/' {
            slash = Some(k);
        }
        k += 1;
    }
    let seg_start: usize = match slash {
        Some(p) => {
            proof {
                assert(money::has_char(pre, '/')) by {
                    assert(pre[p as int] == '/');
                }
                let li = choose|t: int| is_last_at(pre, '/', t);
                assert(is_last_at(pre, '/', p as int));
                lemma_last_at_unique(pre, '/', li, p as int);
            }
            p + 1
        },
        None => {
            proof {
                assert(!money::has_char(pre, '/')) by {
                    if money::has_char(pre, '/') {
                        let t = choose|t: int| 0 <= t < pre.len() && pre[t] == '/';
                        assert(pre[t] != '/');
                    }
                }
                assert(pre.skip(0) =~= pre);
            }
            0
        },
    };
    let ghost seg = last_segment(pre);
    proof {
        assert(seg == pre.skip(seg_start as int));
    }
    let mut digits: Vec<char> = Vec::new();
    let mut t: usize = seg_start;
    while t < cut
        invariant
            seg_start <= t <= cut,
            digits@ == pre.skip(seg_start as int).take(t - seg_start),
        decreases cut - t,
    {
        digits.push(cs[t]);
        t += 1;
        proof {
            assert(pre.skip(seg_start as int).take(t - seg_start) =~= pre.skip(
                seg_start as int,
            ).take(t - 1 - seg_start).push(pre[t - 1]));
        }
    }
    proof {
        assert(pre.skip(seg_start as int).take(pre.len() - seg_start) =~= pre.skip(
            seg_start as int,
        ));
        assert(digits@ == seg);
    }
    money::parse_u64_chars(&digits)
}

/// How a listing was sold. `Auction` carries the bid count; `BuyItNow`
/// whether offers were possible. Both record an accepted best offer.
#[derive(Debug, Clone, Copy, PartialEq, Eq, Structural)]
pub enum BuyingFormat {
    Auction { bids: usize, offer_was_accepted: bool },
    BuyItNow { accepts_offers: bool, offer_was_accepted: bool },
}

impl BuyingFormat {
    /// The bid count, for auctions only.
    pub fn get_bids(&self) -> (r: Option<usize>)
        ensures
            r == match *self {
                BuyingFormat::Auction { bids, .. } => Some(bids),
                BuyingFormat::BuyItNow { .. } => None::<usize>,
            },
    {
        match self {
            BuyingFormat::Auction { bids, .. } => Some(*bids),
            _ => None,
        }
    }

    /// Whether offers were possible, for fixed-price sales only.
    pub fn get_accepts_offers(&self) -> (r: Option<bool>)
        ensures
            r == match *self {
                BuyingFormat::BuyItNow { accepts_offers, .. } => Some(accepts_offers),
                BuyingFormat::Auction { .. } => None::<bool>,
            },
    {
        match self {
            BuyingFormat::BuyItNow { accepts_offers, .. } => Some(*accepts_offers),
            _ => None,
        }
    }

    /// Whether the sale closed through an accepted best offer.
    pub fn get_offer_was_accepted(&self) -> (r: bool)
        ensures
            r == match *self {
                BuyingFormat::BuyItNow { offer_was_accepted, .. } => offer_was_accepted,
                BuyingFormat::Auction { offer_was_accepted, .. } => offer_was_accepted,
            },
    {
        match self {
            BuyingFormat::BuyItNow { offer_was_accepted, .. } => *offer_was_accepted,
            BuyingFormat::Auction { offer_was_accepted, .. } => *offer_was_accepted,
        }
    }
}

pub open spec fn is_first_token_run(s: Seq<char>, a: int, b: int) -> bool {
    &&& text::is_token_run(s, a, b)
    &&& forall|t: int| 0 <= t < a ==> text::is_ws_char(#[trigger] s[t])
}

proof fn lemma_first_token_run_unique(s: Seq<char>, a1: int, b1: int, a2: int, b2: int)
    requires
        is_first_token_run(s, a1, b1),
        is_first_token_run(s, a2, b2),
    ensures
        a1 == a2,
        b1 == b2,
{
    if a1 < a2 {
        assert(text::is_ws_char(s[a1]));
    } else if a2 < a1 {
        assert(text::is_ws_char(s[a2]));
    }
    if b1 < b2 {
        assert(!text::is_ws_char(s[b1]));
    } else if b2 < b1 {
        assert(!text::is_ws_char(s[b2]));
    }
}

pub open spec fn has_any_token(s: Seq<char>) -> bool {
    exists|a: int, b: int| text::is_token_run(s, a, b)
}

/// The first whitespace-delimited token, where one exists.
pub open spec fn first_token_of(s: Seq<char>) -> Seq<char> {
    let (a, b): (int, int) = choose|a: int, b: int| is_first_token_run(s, a, b);
    s.subrange(a, b)
}

/// How the buying-format cell is classified: three fixed-price texts are
/// recognised outright; anything else is an auction whose first token is
/// the bid count, with the secondary row deciding an accepted offer.
/// `None` stands for an unreadable format, fatal to the item-variant.
pub open spec fn spec_classify(p: Seq<char>, sec: Option<Seq<char>>) -> Option<BuyingFormat> {
    if p == "Buy It Now"@ {
        Some(BuyingFormat::BuyItNow { accepts_offers: false, offer_was_accepted: false })
    } else if p == "or Best Offer"@ {
        Some(BuyingFormat::BuyItNow { accepts_offers: true, offer_was_accepted: false })
    } else if p == "Best Offer accepted"@ {
        Some(BuyingFormat::BuyItNow { accepts_offers: true, offer_was_accepted: true })
    } else if !has_any_token(p) {
        None
    } else {
        match money::parse_u64_seq(first_token_of(p)) {
            Some(v) => {
                if v <= usize::MAX && sec is Some {
                    Some(
                        BuyingFormat::Auction {
                            bids: v as usize,
                            offer_was_accepted: sec->Some_0 == "Best Offer accepted"@,
                        },
                    )
                } else {
                    None
                }
            },
            None => None,
        }
    }
}

/// Classifies the buying-format texts of one row.
#[verifier::loop_isolation(false)]
pub fn classify_format(primary: &str, secondary: Option<&str>) -> (r: Option<BuyingFormat>)
    ensures
        r == spec_classify(
            primary@,
            match secondary {
                Some(s) => Some(s@),
                None => None::<Seq<char>>,
            },
        ),
{
    if text::str_eq(primary, "Buy It Now") {
        return Some(BuyingFormat::BuyItNow { accepts_offers: false, offer_was_accepted: false });
    }
    if text::str_eq(primary, "or Best Offer") {
        return Some(BuyingFormat::BuyItNow { accepts_offers: true, offer_was_accepted: false });
    }
    if text::str_eq(primary, "Best Offer accepted") {
        return Some(BuyingFormat::BuyItNow { accepts_offers: true, offer_was_accepted: true });
    }
    let cs = text::chars_of(primary);
    let n = cs.len();
    let mut a: usize = 0;
    while a < n && text::is_ws(cs[a])
        invariant
            a <= n,
            forall|t: int| 0 <= t < a ==> text::is_ws_char(#[trigger] cs@[t]),
        decreases n - a,
    {
        a += 1;
    }
    if a == n {
        proof {
            assert(!has_any_token(cs@)) by {
                if has_any_token(cs@) {
                    let (x, y): (int, int) = choose|x: int, y: int|
                        text::is_token_run(cs@, x, y);
                    assert(!text::is_ws_char(cs@[x]));
                }
            }
        }
        return None;
    }
    let mut b: usize = a;
    while b < n && !text::is_ws(cs[b])
        invariant
            a <= b <= n,
            forall|t: int| a <= t < b ==> !text::is_ws_char(#[trigger] cs@[t]),
        decreases n - b,
    {
        b += 1;
    }
    proof {
        assert(is_first_token_run(cs@, a as int, b as int));
        let (x, y): (int, int) = choose|x: int, y: int| is_first_token_run(cs@, x, y);
        lemma_first_token_run_unique(cs@, x, y, a as int, b as int);
    }
    let mut tok: Vec<char> = Vec::new();
    let mut t = a;
    while t < b
        invariant
            a <= t <= b,
            tok@ == cs@.subrange(a as int, t as int),
        decreases b - t,
    {
        tok.push(cs[t]);
        t += 1;
        proof {
            assert(cs@.subrange(a as int, t as int) =~= cs@.subrange(a as int, t - 1).push(
                cs@[t - 1],
            ));
        }
    }
    let bids64 = match money::parse_u64_chars(&tok) {
        Some(v) => v,
        None => {
            return None;
        },
    };
    if bids64 > usize::MAX as u64 {
        return None;
    }
    match secondary {
        Some(sec) => Some(
            BuyingFormat::Auction {
                bids: bids64 as usize,
                offer_was_accepted: text::str_eq(sec, "Best Offer accepted"),
            },
        ),
        None => None,
    }
}

/// One accepted sale, as the extractor accumulates them.
#[derive(Debug, Clone)]
pub struct Listing {
    pub id: u64,
    pub title: String,
    pub date: SaleDate,
    pub price: Money,
    pub link: String,
    pub buying_format: BuyingFormat,
}

/// Everything the transport reads out of one result row. Fields beyond
/// `class_names` and `text` matter only for listing rows; a missing link
/// or secondary format cell is `None`.
#[derive(Debug, Clone)]
pub struct RowFields {
    pub class_names: Option<String>,
    pub text: String,
    pub caption: String,
    pub title: String,
    pub price_text: String,
    pub link: Option<String>,
    pub format_primary: String,
    pub format_secondary: Option<String>,
}

/// What kind of result row this is: a listing card, the end-of-relevant-
/// results sentinel, or something to pass over.
#[derive(Debug, Clone, Copy, PartialEq, Eq, Structural)]
pub enum RowKind {
    NonListing,
    Sentinel,
    ListingRow,
}

/// A row is a listing when its class list carries the `s-card` token; a
/// non-card row whose text is the sentinel ends the relevant results.
pub open spec fn spec_kind(cn: Option<Seq<char>>, text: Seq<char>) -> RowKind {
    match cn {
        None => RowKind::NonListing,
        Some(c) => {
            if text::has_token(c, "s-card"@) {
                RowKind::ListingRow
            } else if text == "Results matching fewer words"@ {
                RowKind::Sentinel
            } else {
                RowKind::NonListing
            }
        },
    }
}

pub open spec fn spec_row_kind(row: RowFields) -> RowKind {
    spec_kind(
        match row.class_names {
            Some(c) => Some(c@),
            None => None,
        },
        row.text@,
    )
}

/// Classifies one result row from its class list and text.
pub fn row_kind(class_names: Option<&str>, text: &str) -> (r: RowKind)
    ensures
        r == spec_kind(
            match class_names {
                Some(c) => Some(c@),
                None => None::<Seq<char>>,
            },
            text@,
        ),
{
    match class_names {
        None => RowKind::NonListing,
        Some(cn) => {
            let cnc = text::chars_of(cn);
            let scard = text::chars_of("s-card");
            if text::contains_token(&cnc, &scard) {
                RowKind::ListingRow
            } else if text::str_eq(text, "Results matching fewer words") {
                RowKind::Sentinel
            } else {
                RowKind::NonListing
            }
        },
    }
}

/// A failure that ends extraction for the whole item-variant: these point
/// at a structural page change, not bad data in one row.
#[derive(Debug, Clone, Copy, PartialEq, Eq, Structural)]
pub enum ExtractError {
    BadDate,
    BadId,
    BadFormat,
}

/// What the extractor decides for one listing row.
#[derive(Debug, Clone, Copy, PartialEq, Eq, Structural)]
pub enum RowDecision {
    Stop,
    Skip,
    Fatal(ExtractError),
    Accept,
}

/// The outcome handed back for one listing row; `Accepted` carries the
/// assembled listing.
#[derive(Debug)]
pub enum RowOutcome {
    EarlyStop,
    Skip,
    Fatal(ExtractError),
    Accepted(Listing),
}

pub open spec fn link_view(row: RowFields) -> Seq<char> {
    match row.link {
        Some(l) => l@,
        None => Seq::empty(),
    }
}

pub open spec fn sec_view(row: RowFields) -> Option<Seq<char>> {
    match row.format_secondary {
        Some(s) => Some(s@),
        None => None,
    }
}

/// The extractor's decision for one listing row, in the exact order the
/// checks run: an unreadable date is fatal; a date before the watermark
/// stops extraction; title and variant rules skip the row; an unparsable
/// price skips the row; an unreadable identifier or buying format is
/// fatal; everything else is accepted.
pub open spec fn spec_row_decision(
    row: RowFields,
    name: Seq<char>,
    class: Class,
    c: Currency,
    wm: Option<SaleDate>,
) -> RowDecision {
    let d = date_of_text(strip_sold(row.caption@));
    if d is None {
        RowDecision::Fatal(ExtractError::BadDate)
    } else {
        let date = (SaleDate { year: d->Some_0.0, month: d->Some_0.1, day: d->Some_0.2 });
        if wm matches Some(w) && date.spec_before(w) {
            RowDecision::Stop
        } else if !spec_title_matches(text::lower_of(row.title@), text::lower_of(name)) {
            RowDecision::Skip
        } else if spec_blacklisted(class, text::lower_of(row.title@)) {
            RowDecision::Skip
        } else if spec_missing_cue(class, text::lower_of(row.title@)) {
            RowDecision::Skip
        } else if !(money::spec_parse(row.price_text@, c) is Amount) {
            RowDecision::Skip
        } else if spec_listing_id(link_view(row)) is None {
            RowDecision::Fatal(ExtractError::BadId)
        } else if spec_classify(row.format_primary@, sec_view(row)) is None {
            RowDecision::Fatal(ExtractError::BadFormat)
        } else {
            RowDecision::Accept
        }
    }
}

/// What an accepted listing holds, field by field, in terms of the row it
/// came from: the parsed date, the raw title, the parsed price, the link
/// trimmed of its query string, and the identifier and format read from
/// the row.
pub open spec fn spec_accepted_listing(row: RowFields, c: Currency, l: Listing) -> bool {
    let d = date_of_text(strip_sold(row.caption@));
    &&& d is Some
    &&& l.date == (SaleDate { year: d->Some_0.0, month: d->Some_0.1, day: d->Some_0.2 })
    &&& l.title@ == row.title@
    &&& money::spec_parse(row.price_text@, c) matches ParseOutcome::Amount(t) && l.price == (
    Money { currency: c, total: t })
    &&& l.link@ == link_before_query(link_view(row))
    &&& spec_listing_id(link_view(row)) == Some(l.id)
    &&& spec_classify(row.format_primary@, sec_view(row)) == Some(l.buying_format)
}

/// The link up to the first query marker, as owned text.
#[verifier::loop_isolation(false)]
pub fn link_prefix(link: &str) -> (r: String)
    ensures
        r@ == link_before_query(link@),
{
    let cs = text::chars_of(link);
    let mut cut: usize = cs.len();
    let mut i: usize = 0;
    while i < cs.len()
        invariant
            i <= cs.len(),
            cut == cs.len() || (cut < i && cs@[cut as int] == '?' && forall|j: int|
                0 <= j < cut ==> cs@[j] != '?'),
            cut == cs.len() ==> forall|j: int| 0 <= j < i ==> cs@[j] != '?',
            cut <= cs.len(),
        decreases cs.len() - i,
    {
        if cut == cs.len() && cs[i] == '?' {
            cut = i;
        }
        i += 1;
    }
    proof {
        if cut < cs.len() {
            assert(money::has_char(cs@, '?')) by {
                assert(cs@[cut as int] == '?');
            }
            let fi = choose|t: int| money::is_first_at(cs@, '?', t);
            assert(money::is_first_at(cs@, '?', cut as int));
            money::lemma_first_at_unique(cs@, '?', fi, cut as int);
        } else {
            assert(!money::has_char(cs@, '?')) by {
                if money::has_char(cs@, '?') {
                    let t = choose|t: int| 0 <= t < cs@.len() && cs@[t] == '?';
                    assert(cs@[t] != '?');
                }
            }
            assert(cs@.take(cut as int) =~= cs@);
        }
    }
    let mut out: Vec<char> = Vec::new();
    let mut t: usize = 0;
    while t < cut
        invariant
            t <= cut <= cs.len(),
            out@ == cs@.take(t as int),
        decreases cut - t,
    {
        out.push(cs[t]);
        t += 1;
        proof {
            assert(cs@.take(t as int) =~= cs@.take(t - 1).push(cs@[t - 1]));
        }
    }
    text::string_from_chars(&out)
}

/// Runs every check for one listing row and assembles the listing when all
/// of them pass.
pub fn process_listing_row(
    row: &RowFields,
    card_name: &str,
    class: &Class,
    currency: &Currency,
    watermark: Option<&SaleDate>,
) -> (r: RowOutcome)
    ensures
        ({
            let wm = match watermark {
                Some(w) => Some(*w),
                None => None::<SaleDate>,
            };
            match spec_row_decision(*row, card_name@, *class, *currency, wm) {
                RowDecision::Stop => r is EarlyStop,
                RowDecision::Skip => r is Skip,
                RowDecision::Fatal(e) => r matches RowOutcome::Fatal(e2) && e2 == e,
                RowDecision::Accept => r matches RowOutcome::Accepted(l)
                    && spec_accepted_listing(*row, *currency, l),
            }
        }),
{
    let date = match parse_sale_date(row.caption.as_str()) {
        Some(d) => d,
        None => {
            return RowOutcome::Fatal(ExtractError::BadDate);
        },
    };
    if let Some(w) = watermark {
        if date.before(w) {
            return RowOutcome::EarlyStop;
        }
    }
    if !title_matches(row.title.as_str(), card_name) {
        return RowOutcome::Skip;
    }
    if !variant_accepts(class, row.title.as_str()) {
        return RowOutcome::Skip;
    }
    let price = match Money::from_str(row.price_text.as_str(), currency) {
        Ok(m) => m,
        Err(_) => {
            return RowOutcome::Skip;
        },
    };
    let link_str: &str = match &row.link {
        Some(l) => l.as_str(),
        None => "",
    };
    proof {
        reveal_strlit("");
        assert(""@ =~= Seq::<char>::empty());
    }
    let id = match parse_listing_id(link_str) {
        Some(i) => i,
        None => {
            return RowOutcome::Fatal(ExtractError::BadId);
        },
    };
    let trimmed = link_prefix(link_str);
    let sec: Option<&str> = match &row.format_secondary {
        Some(s) => Some(s.as_str()),
        None => None,
    };
    let buying_format = match classify_format(row.format_primary.as_str(), sec) {
        Some(b) => b,
        None => {
            return RowOutcome::Fatal(ExtractError::BadFormat);
        },
    };
    RowOutcome::Accepted(
        Listing {
            id,
            title: row.title.clone(),
            date,
            price,
            link: trimmed,
            buying_format,
        },
    )
}

/// What a page of rows leaves the extractor with: more pages to walk, or
/// extraction finished for this item-variant (the sentinel row or the
/// watermark ended it).
#[derive(Debug, Clone, Copy, PartialEq, Eq, Structural)]
pub enum PageStatus {
    MorePages,
    Done,
}

/// The page's outcome from row `i` on: rows are taken in order until the
/// sentinel or the watermark ends extraction, a listing-row failure ends
/// it fatally, or the rows run out.
pub open spec fn spec_page_result(
    rows: Seq<RowFields>,
    i: int,
    name: Seq<char>,
    class: Class,
    c: Currency,
    wm: Option<SaleDate>,
) -> Result<PageStatus, ExtractError>
    decreases rows.len() - i,
{
    if i < 0 || i >= rows.len() {
        Ok(PageStatus::MorePages)
    } else {
        match spec_row_kind(rows[i]) {
            RowKind::NonListing => spec_page_result(rows, i + 1, name, class, c, wm),
            RowKind::Sentinel => Ok(PageStatus::Done),
            RowKind::ListingRow => match spec_row_decision(rows[i], name, class, c, wm) {
                RowDecision::Fatal(e) => Err(e),
                RowDecision::Stop => Ok(PageStatus::Done),
                RowDecision::Skip => spec_page_result(rows, i + 1, name, class, c, wm),
                RowDecision::Accept => spec_page_result(rows, i + 1, name, class, c, wm),
            },
        }
    }
}

/// The indices of the rows the page accepts, in order, up to whatever row
/// ends the walk.
pub open spec fn spec_accepted_indices(
    rows: Seq<RowFields>,
    i: int,
    name: Seq<char>,
    class: Class,
    c: Currency,
    wm: Option<SaleDate>,
) -> Seq<int>
    decreases rows.len() - i,
{
    if i < 0 || i >= rows.len() {
        Seq::empty()
    } else {
        match spec_row_kind(rows[i]) {
            RowKind::NonListing => spec_accepted_indices(rows, i + 1, name, class, c, wm),
            RowKind::Sentinel => Seq::empty(),
            RowKind::ListingRow => match spec_row_decision(rows[i], name, class, c, wm) {
                RowDecision::Fatal(_) => Seq::empty(),
                RowDecision::Stop => Seq::empty(),
                RowDecision::Skip => spec_accepted_indices(rows, i + 1, name, class, c, wm),
                RowDecision::Accept => seq![i] + spec_accepted_indices(
                    rows,
                    i + 1,
                    name,
                    class,
                    c,
                    wm,
                ),
            },
        }
    }
}

/// Walks one page of result rows, appending every accepted listing to
/// `acc`, and reports whether extraction goes on to another page.
#[verifier::rlimit(100)]
#[verifier::spinoff_prover]
#[verifier::loop_isolation(false)]
pub fn process_page(
    rows: &Vec<RowFields>,
    card_name: &str,
    class: &Class,
    currency: &Currency,
    watermark: Option<&SaleDate>,
    acc: &mut Vec<Listing>,
) -> (r: Result<PageStatus, ExtractError>)
    ensures
        ({
            let wm = match watermark {
                Some(w) => Some(*w),
                None => None::<SaleDate>,
            };
            let taken = spec_accepted_indices(rows@, 0, card_name@, *class, *currency, wm);
            &&& r == spec_page_result(rows@, 0, card_name@, *class, *currency, wm)
            &&& final(acc)@.len() == old(acc)@.len() + taken.len()
            &&& forall|t: int|
                0 <= t < old(acc)@.len() ==> #[trigger] final(acc)@[t] == old(acc)@[t]
            &&& forall|t: int|
                0 <= t < taken.len() ==> spec_accepted_listing(
                    rows@[taken[t]],
                    *currency,
                    #[trigger] final(acc)@[old(acc)@.len() + t],
                )
        }),
{
    let ghost wm = match watermark {
        Some(w) => Some(*w),
        None => None::<SaleDate>,
    };
    let ghost name = card_name@;
    let ghost old_len = acc@.len() as int;
    let ghost mut done: Seq<int> = Seq::empty();
    let mut i: usize = 0;
    proof {
        assert(Seq::<int>::empty() + spec_accepted_indices(rows@, 0, name, *class, *currency, wm)
            =~= spec_accepted_indices(rows@, 0, name, *class, *currency, wm));
    }
    while i < rows.len()
        invariant
            i <= rows.len(),
            spec_page_result(rows@, 0, name, *class, *currency, wm) == spec_page_result(
                rows@,
                i as int,
                name,
                *class,
                *currency,
                wm,
            ),
            spec_accepted_indices(rows@, 0, name, *class, *currency, wm) == done
                + spec_accepted_indices(rows@, i as int, name, *class, *currency, wm),
            acc@.len() == old_len + done.len(),
            forall|t: int| 0 <= t < old_len ==> #[trigger] acc@[t] == old(acc)@[t],
            forall|t: int|
                0 <= t < done.len() ==> spec_accepted_listing(
                    rows@[done[t]],
                    *currency,
                    #[trigger] acc@[old_len + t],
                ),
        decreases rows.len() - i,
    {
        let row = &rows[i];
        let cn: Option<&str> = match &row.class_names {
            Some(c) => Some(c.as_str()),
            None => None,
        };
        let kind = row_kind(cn, row.text.as_str());
        match kind {
            RowKind::NonListing => {},
            RowKind::Sentinel => {
                return Ok(PageStatus::Done);
            },
            RowKind::ListingRow => {
                match process_listing_row(row, card_name, class, currency, watermark) {
                    RowOutcome::Fatal(e) => {
                        return Err(e);
                    },
                    RowOutcome::EarlyStop => {
                        return Ok(PageStatus::Done);
                    },
                    RowOutcome::Skip => {},
                    RowOutcome::Accepted(l) => {
                        acc.push(l);
                        proof {
                            let rest = spec_accepted_indices(
                                rows@,
                                i + 1,
                                name,
                                *class,
                                *currency,
                                wm,
                            );
                            assert(done + (seq![i as int] + rest) =~= (done + seq![i as int])
                                + rest);
                            done = done + seq![i as int];
                        }
                    },
                }
            },
        }
        i += 1;
    }
    Ok(PageStatus::MorePages)
}

/// The hard ceiling on result pages walked for one item-variant.
pub const PAGINATION_LIMIT: usize = 100;

/// Whether the pagination ceiling forces extraction to end regardless of
/// the next-page control.
pub fn pagination_limit_reached(page_count: usize) -> (r: bool)
    ensures
        r == (page_count > PAGINATION_LIMIT),
{
    page_count > PAGINATION_LIMIT
}

} // verus!
