//! Outlier-filtered price statistics over persisted listings.
//!
//! Prices are integer minor units throughout; the interquartile-range filter
//! and the retained mean are computed exactly, with no floating point.
use vstd::prelude::*;
use vstd::multiset::Multiset;
use vstd::seq_lib::lemma_multiset_commutative;
use vstd::seq_lib::lemma_sorted_unique;

verus! {

broadcast use vstd::seq_lib::group_to_multiset_ensures;

/// The variant classification a stored listing is keyed by.
#[derive(Debug, Clone, Copy, PartialEq, Eq, Structural)]
pub enum Class {
    Regular,
    ReverseHolo,
    Holo,
}

impl Class {
    pub open spec fn spec_name(self) -> Seq<char> {
        match self {
            Class::Regular => "Regular"@,
            Class::ReverseHolo => "Reverse Holo"@,
            Class::Holo => "Holo"@,
        }
    }

    /// The stored textual form of the class.
    pub fn name(&self) -> (r: String)
        ensures
            r@ == self.spec_name(),
    {
        match self {
            Class::Regular => "Regular".to_owned(),
            Class::ReverseHolo => "Reverse Holo".to_owned(),
            Class::Holo => "Holo".to_owned(),
        }
    }

    /// Decodes the stored textual form; any other text is rejected.
    pub fn from_name(s: &str) -> (r: Result<Class, String>)
        ensures
            match r {
                Ok(c) => s@ == c.spec_name(),
                Err(e) => {
                    &&& s@ != Class::Regular.spec_name()
                    &&& s@ != Class::ReverseHolo.spec_name()
                    &&& s@ != Class::Holo.spec_name()
                    &&& e@ == "Invalid class variant"@
                },
            },
    {
        if crate::text::str_eq(s, "Regular") {
            Ok(Class::Regular)
        } else if crate::text::str_eq(s, "Reverse Holo") {
            Ok(Class::ReverseHolo)
        } else if crate::text::str_eq(s, "Holo") {
            Ok(Class::Holo)
        } else {
            Err("Invalid class variant".to_owned())
        }
    }
}

/// The index the median rule picks: the lower middle, with the same plain
/// index rule for even and odd lengths (no averaging of the middle two).
pub open spec fn median_index(n: int) -> int {
    if n % 2 == 0 {
        (n + 1) / 2
    } else {
        n / 2
    }
}

pub open spec fn median_of(s: Seq<u64>) -> u64
    recommends
        s.len() > 0,
{
    s[median_index(s.len() as int)]
}

/// The element the median rule picks, or `None` for an empty slice.
pub fn median<T>(xs: &[T]) -> (r: Option<&T>)
    ensures
        match r {
            None => xs@.len() == 0,
            Some(m) => xs@.len() > 0 && *m == xs@[median_index(xs@.len() as int)],
        },
{
    let len = xs.len();
    if len == 0 {
        return None;
    }
    let idx: usize = if len % 2 == 0 {
        (len + 1) / 2
    } else {
        len / 2
    };
    Some(&xs[idx])
}

pub open spec fn leq_u64() -> spec_fn(u64, u64) -> bool {
    |a: u64, b: u64| a <= b
}

/// The ascending rearrangement of a price sequence.
pub open spec fn sorted_version(s: Seq<u64>) -> Seq<u64> {
    s.sort_by(leq_u64())
}

pub open spec fn sorted_u64(s: Seq<u64>) -> bool {
    forall|i: int, j: int| 0 <= i < j < s.len() ==> s[i] <= s[j]
}

/// Ascending insertion sort; the result is exactly `sorted_version`.
#[verifier::loop_isolation(false)]
fn sort_u64(v: &Vec<u64>) -> (r: Vec<u64>)
    ensures
        r@ == sorted_version(v@),
{
    let mut out: Vec<u64> = Vec::new();
    let mut i: usize = 0;
    while i < v.len()
        invariant
            i <= v.len(),
            sorted_u64(out@),
            out@.to_multiset() == v@.take(i as int).to_multiset(),
        decreases v.len() - i,
    {
        let x = v[i];
        // Find the first position holding something greater than `x`.
        let mut p: usize = 0;
        while p < out.len() && out[p] <= x
            invariant
                p <= out.len(),
                forall|q: int| 0 <= q < p ==> out@[q] <= x,
            decreases out.len() - p,
        {
            p += 1;
        }
        let ghost before = out@;
        out.insert(p, x);
        proof {
            assert(out@ =~= before.take(p as int) + seq![x] + before.skip(p as int));
            lemma_multiset_commutative(before.take(p as int) + seq![x], before.skip(p as int));
            lemma_multiset_commutative(before.take(p as int), seq![x]);
            lemma_multiset_commutative(before.take(p as int), before.skip(p as int));
            assert(before.take(p as int) + before.skip(p as int) =~= before);
            assert(seq![x].to_multiset() =~= Multiset::empty().insert(x)) by {
                assert(seq![x].drop_first() =~= Seq::<u64>::empty());
            }
            assert(out@.to_multiset() =~= before.to_multiset().insert(x));
            assert(v@.take(i + 1) =~= v@.take(i as int).push(x));
            assert(sorted_u64(out@)) by {
                assert forall|a: int, b: int| 0 <= a < b < out@.len() implies out@[a]
                    <= out@[b] by {
                    if a < p && b == p {
                        assert(out@[a] == before[a]);
                    } else if a == p && b > p {
                        assert(out@[b] == before[b - 1]);
                        assert(before[p as int] > x);
                    }
                }
            }
        }
        i += 1;
    }
    proof {
        assert(v@.take(v@.len() as int) =~= v@);
        v@.lemma_sort_by_ensures(leq_u64());
        lemma_sorted_unique(out@, sorted_version(v@), leq_u64());
    }
    out
}

/// Whether a price sits inside the interquartile fence
/// `[q1 - 3*(q3-q1)/2, q3 + 3*(q3-q1)/2]`, stated exactly over integers by
/// doubling both sides.
pub open spec fn iqr_keep(q1: u64, q3: u64, x: u64) -> bool {
    &&& 2 * (x as int) >= 2 * (q1 as int) - 3 * ((q3 as int) - (q1 as int))
    &&& 2 * (x as int) <= 2 * (q3 as int) + 3 * ((q3 as int) - (q1 as int))
}

/// First quartile: the median of the lower half of the sorted prices.
pub open spec fn q1_of(s: Seq<u64>) -> u64 {
    median_of(sorted_version(s).take(s.len() as int / 2))
}

/// Third quartile: the median of the upper half (which keeps the midpoint).
pub open spec fn q3_of(s: Seq<u64>) -> u64 {
    median_of(sorted_version(s).skip(s.len() as int / 2))
}

/// The retention test for a given price sequence, as one value, so that the
/// executable filter and the specification name the same predicate.
pub open spec fn keep_pred(s: Seq<u64>) -> spec_fn(u64) -> bool {
    |x: u64| iqr_keep(q1_of(s), q3_of(s), x)
}

/// The listings the interquartile-range filter retains, in their original
/// order; fewer than two prices retain nothing.
pub open spec fn iqr_filtered(s: Seq<u64>) -> Seq<u64> {
    if s.len() < 2 {
        Seq::empty()
    } else {
        s.filter(keep_pred(s))
    }
}

/// Retains the prices inside the interquartile fence, preserving order.
#[verifier::loop_isolation(false)]
pub fn iqr(items: Vec<u64>) -> (r: Vec<u64>)
    ensures
        r@ == iqr_filtered(items@),
{
    let len = items.len();
    let n = len / 2;
    if len < 2 {
        proof {
            assert(iqr_filtered(items@) =~= Seq::<u64>::empty());
        }
        return Vec::new();
    }
    let sorted = sort_u64(&items);
    proof {
        items@.lemma_sort_by_ensures(leq_u64());
        assert(sorted@.len() == items@.len()) by {
            assert(sorted@.to_multiset().len() == sorted@.len());
            assert(items@.to_multiset().len() == items@.len());
        }
    }
    let lower_idx: usize = if n % 2 == 0 {
        (n + 1) / 2
    } else {
        n / 2
    };
    let m = len - n;
    let upper_idx: usize = n + (if m % 2 == 0 {
        (m + 1) / 2
    } else {
        m / 2
    });
    let q1 = sorted[lower_idx];
    let q3 = sorted[upper_idx];
    proof {
        assert(sorted@.take(n as int)[median_index(n as int)] == sorted@[lower_idx as int]);
        assert(sorted@.skip(n as int)[median_index(m as int)] == sorted@[upper_idx as int]);
        assert(q1 == q1_of(items@));
        assert(q3 == q3_of(items@));
    }
    let mut out: Vec<u64> = Vec::new();
    let mut i: usize = 0;
    let ghost keep = keep_pred(items@);
    proof {
        reveal(Seq::filter);
    }
    while i < items.len()
        invariant
            i <= items.len(),
            out@ == items@.take(i as int).filter(keep),
        decreases items.len() - i,
    {
        let x = items[i];
        let two_x: i128 = 2 * (x as i128);
        let spread: i128 = 3 * ((q3 as i128) - (q1 as i128));
        if two_x >= 2 * (q1 as i128) - spread && two_x <= 2 * (q3 as i128) + spread {
            out.push(x);
            proof {
                assert(keep(x));
            }
        } else {
            proof {
                assert(!keep(x));
            }
        }
        proof {
            reveal(Seq::filter);
            let t = items@.take(i + 1);
            assert(t.drop_last() =~= items@.take(i as int));
            assert(t.last() == x);
            assert(out@ == t.filter(keep));
        }
        i += 1;
    }
    proof {
        assert(items@.take(items@.len() as int) =~= items@);
    }
    out
}

pub open spec fn sum_seq(s: Seq<u64>) -> nat
    decreases s.len(),
{
    if s.len() == 0 {
        0
    } else {
        sum_seq(s.drop_last()) + s.last() as nat
    }
}

/// The mean of the retained prices, rounded down, or zero when nothing is
/// retained.
pub open spec fn spec_retained_mean(s: Seq<u64>) -> u64 {
    let kept = iqr_filtered(s);
    if kept.len() == 0 {
        0
    } else {
        (sum_seq(kept) / kept.len()) as u64
    }
}

proof fn lemma_sum_bound(s: Seq<u64>)
    ensures
        sum_seq(s) <= s.len() * u64::MAX,
    decreases s.len(),
{
    if s.len() > 0 {
        lemma_sum_bound(s.drop_last());
        assert((s.len() - 1) * u64::MAX + u64::MAX == s.len() * u64::MAX) by (nonlinear_arith);
    }
}

/// Applies the interquartile filter and reports the mean retained price.
#[verifier::loop_isolation(false)]
pub fn retained_mean(prices: Vec<u64>) -> (r: u64)
    ensures
        r == spec_retained_mean(prices@),
{
    let ghost orig = prices@;
    let kept = iqr(prices);
    if kept.len() == 0 {
        return 0;
    }
    let mut total: u128 = 0;
    let mut i: usize = 0;
    while i < kept.len()
        invariant
            i <= kept.len(),
            total == sum_seq(kept@.take(i as int)),
            total <= (i as nat) * u64::MAX,
        decreases kept.len() - i,
    {
        proof {
            assert(kept@.take(i + 1).drop_last() =~= kept@.take(i as int));
            assert(kept@.take(i + 1).last() == kept@[i as int]);
            assert((i as nat) * u64::MAX + u64::MAX == ((i + 1) as nat) * u64::MAX)
                by (nonlinear_arith);
            assert(((i + 1) as nat) * u64::MAX <= (kept@.len() as nat) * u64::MAX)
                by (nonlinear_arith)
                requires
                    i + 1 <= kept@.len(),
            ;
            assert((kept@.len() as nat) * u64::MAX < u128::MAX) by (nonlinear_arith)
                requires
                    kept@.len() <= usize::MAX,
            ;
        }
        total = total + (kept[i] as u128);
        i += 1;
    }
    proof {
        assert(kept@.take(kept@.len() as int) =~= kept@);
    }
    let count = kept.len() as u128;
    let mean = total / count;
    proof {
        lemma_sum_bound(kept@);
        vstd::arithmetic::div_mod::lemma_div_is_ordered(
            total as int,
            (kept@.len() as nat * u64::MAX) as int,
            count as int,
        );
        vstd::arithmetic::div_mod::lemma_div_multiples_vanish(
            u64::MAX as int,
            count as int,
        );
    }
    mean as u64
}

/// The catalog coordinates one aggregate row is keyed by.
#[derive(Debug, Clone, Copy, PartialEq, Eq, Structural)]
pub struct VariantKey {
    pub expansion: u32,
    pub number: u32,
    pub class: Class,
}

/// One persisted listing joined to its catalog coordinates, reduced to what
/// aggregation needs.
#[derive(Debug, Clone, Copy)]
pub struct StatRow {
    pub key: VariantKey,
    pub price: u64,
}

/// The aggregate reported for one item-variant.
#[derive(Debug, Clone, Copy)]
pub struct VariantStat {
    pub key: VariantKey,
    pub mean_price: u64,
}

pub open spec fn key_match(k: VariantKey) -> spec_fn(StatRow) -> bool {
    |r: StatRow| r.key == k
}

pub open spec fn price_of() -> spec_fn(StatRow) -> u64 {
    |r: StatRow| r.price
}

/// The prices recorded for one item-variant, in row order.
pub open spec fn prices_for(rows: Seq<StatRow>, k: VariantKey) -> Seq<u64> {
    rows.filter(key_match(k)).map_values(price_of())
}

/// Every key that occurs in the rows, in order of first appearance.
pub open spec fn distinct_keys(rows: Seq<StatRow>) -> Seq<VariantKey>
    decreases rows.len(),
{
    if rows.len() == 0 {
        Seq::empty()
    } else {
        let rest = distinct_keys(rows.drop_last());
        if rest.contains(rows.last().key) {
            rest
        } else {
            rest.push(rows.last().key)
        }
    }
}

fn keys_contain(keys: &Vec<VariantKey>, k: VariantKey) -> (r: bool)
    ensures
        r == keys@.contains(k),
{
    let mut i: usize = 0;
    while i < keys.len()
        invariant
            i <= keys.len(),
            forall|j: int| 0 <= j < i ==> keys@[j] != k,
        decreases keys.len() - i,
    {
        if keys[i] == k {
            return true;
        }
        i += 1;
    }
    false
}

/// Groups rows by item-variant and reports each group's retained-mean
/// price, in order of each variant's first appearance.
#[verifier::loop_isolation(false)]
pub fn aggregate_by_variant(rows: &Vec<StatRow>) -> (r: Vec<VariantStat>)
    ensures
        r@.len() == distinct_keys(rows@).len(),
        forall|i: int|
            0 <= i < r@.len() ==> #[trigger] r@[i].key == distinct_keys(rows@)[i]
                && r@[i].mean_price == spec_retained_mean(
                prices_for(rows@, distinct_keys(rows@)[i]),
            ),
{
    let mut keys: Vec<VariantKey> = Vec::new();
    let mut i: usize = 0;
    while i < rows.len()
        invariant
            i <= rows.len(),
            keys@ == distinct_keys(rows@.take(i as int)),
        decreases rows.len() - i,
    {
        let k = rows[i].key;
        proof {
            assert(rows@.take(i + 1).drop_last() =~= rows@.take(i as int));
            assert(rows@.take(i + 1).last() == rows@[i as int]);
        }
        if !keys_contain(&keys, k) {
            keys.push(k);
        }
        i += 1;
    }
    proof {
        assert(rows@.take(rows@.len() as int) =~= rows@);
    }

    let mut out: Vec<VariantStat> = Vec::new();
    let mut j: usize = 0;
    while j < keys.len()
        invariant
            j <= keys.len(),
            out@.len() == j,
            forall|t: int|
                0 <= t < j ==> #[trigger] out@[t].key == keys@[t] && out@[t].mean_price
                    == spec_retained_mean(prices_for(rows@, keys@[t])),
        decreases keys.len() - j,
    {
        let k = keys[j];
        let mut ps: Vec<u64> = Vec::new();
        let mut i2: usize = 0;
        proof {
            reveal(Seq::filter);
        }
        while i2 < rows.len()
            invariant
                i2 <= rows.len(),
                ps@ == rows@.take(i2 as int).filter(key_match(k)).map_values(price_of()),
            decreases rows.len() - i2,
        {
            proof {
                reveal(Seq::filter);
                let t = rows@.take(i2 + 1);
                assert(t.drop_last() =~= rows@.take(i2 as int));
                assert(t.last() == rows@[i2 as int]);
                if key_match(k)(rows@[i2 as int]) {
                    assert(t.filter(key_match(k)).map_values(price_of()) =~= rows@.take(
                        i2 as int,
                    ).filter(key_match(k)).map_values(price_of()).push(rows@[i2 as int].price));
                }
            }
            let row = rows[i2];
            if row.key == k {
                ps.push(row.price);
            }
            i2 += 1;
        }
        proof {
            assert(rows@.take(rows@.len() as int) =~= rows@);
        }
        let m = retained_mean(ps);
        out.push(VariantStat { key: k, mean_price: m });
        j += 1;
    }
    out
}

} // verus!
