//! Fixed-point money: exact integer minor-unit amounts.
//!
//! An amount is parsed from free-form marketplace text and always kept as an
//! integer count of minor units (e.g. pence); nothing here ever rounds.
use vstd::prelude::*;

use crate::text;

verus! {

/// Description of a currency's textual form: its symbol, the separator
/// between major and minor units, the grouping separator inside the major
/// part, and how many decimal digits the minor part carries.
#[derive(Debug, Clone, Copy, PartialEq, Eq, Structural)]
pub struct Currency {
    pub symbol: char,
    pub exponent_seperator: char,
    pub digit_seperator: char,
    pub exponent: u8,
}

/// An exact amount of money: a whole number of minor units of a currency.
#[derive(Debug, Clone, Copy, PartialEq, Eq, Structural)]
pub struct Money {
    pub currency: Currency,
    pub total: u64,
}

/// What parsing a money string yields: an amount in minor units, or one of
/// the two rejection reasons.
pub enum ParseOutcome {
    Amount(u64),
    InvalidParts,
    InvalidTotal,
}

pub open spec fn is_digit_char(c: char) -> bool {
    48 <= (c as u32) && (c as u32) <= 57
}

pub open spec fn digit_val(c: char) -> nat {
    ((c as u32) - 48) as nat
}

/// Value of a digit string read in base 10, most significant digit first.
pub open spec fn digits_val(s: Seq<char>) -> nat
    decreases s.len(),
{
    if s.len() == 0 {
        0
    } else {
        digits_val(s.drop_last()) * 10 + digit_val(s.last())
    }
}

pub open spec fn pow10(e: nat) -> nat
    decreases e,
{
    if e == 0 {
        1
    } else {
        10 * pow10((e - 1) as nat)
    }
}

pub open spec fn all_digits(s: Seq<char>) -> bool {
    forall|i: int| 0 <= i < s.len() ==> is_digit_char(#[trigger] s[i])
}

/// Unsigned-integer text: an optional leading plus sign, then at least one
/// decimal digit, with a value that fits in a `u64`.
pub open spec fn parse_u64_seq(s: Seq<char>) -> Option<u64> {
    let ds = if s.len() > 0 && s[0] == '+' {
        s.drop_first()
    } else {
        s
    };
    if ds.len() > 0 && all_digits(ds) && digits_val(ds) <= u64::MAX {
        Some(digits_val(ds) as u64)
    } else {
        None
    }
}

/// The separator occurs at `i` and nowhere earlier.
pub open spec fn is_first_at(s: Seq<char>, x: char, i: int) -> bool {
    &&& 0 <= i < s.len()
    &&& s[i] == x
    &&& forall|j: int| 0 <= j < i ==> s[j] != x
}

pub open spec fn has_char(s: Seq<char>, x: char) -> bool {
    exists|i: int| 0 <= i < s.len() && s[i] == x
}

pub open spec fn has_two(s: Seq<char>, x: char) -> bool {
    exists|i: int, j: int| 0 <= i < j < s.len() && s[i] == x && s[j] == x
}

/// The sequence with every occurrence of `x` removed.
pub open spec fn remove_char(s: Seq<char>, x: char) -> Seq<char>
    decreases s.len(),
{
    if s.len() == 0 {
        Seq::empty()
    } else if s.last() == x {
        remove_char(s.drop_last(), x)
    } else {
        remove_char(s.drop_last(), x).push(s.last())
    }
}

pub open spec fn zeros(n: nat) -> Seq<char> {
    Seq::new(n, |i: int| '0')
}

/// The fractional part padded on the right with zeros up to `e` digits;
/// a longer fractional part is kept as written.
pub open spec fn pad_minor(s: Seq<char>, e: nat) -> Seq<char> {
    if s.len() >= e {
        s
    } else {
        s + zeros((e - s.len()) as nat)
    }
}

/// The whole parse, stated over the input's characters: strip one leading
/// currency symbol; split on the decimal separator (two or more separators
/// reject the input, none means a zero fractional part); drop grouping
/// separators from the major part; right-pad the minor part to the
/// currency's digit count; read the concatenation as an unsigned integer.
/// The digit string the split leaves behind: the cleaned major part
/// followed by the padded minor part.
pub open spec fn spec_digits_of(body: Seq<char>, c: Currency) -> Seq<char> {
    if has_char(body, c.exponent_seperator) {
        let i = choose|i: int| is_first_at(body, c.exponent_seperator, i);
        remove_char(body.take(i), c.digit_seperator) + pad_minor(
            body.skip(i + 1),
            c.exponent as nat,
        )
    } else {
        remove_char(body, c.digit_seperator) + pad_minor(seq!['0', '0'], c.exponent as nat)
    }
}

pub open spec fn spec_parse(s: Seq<char>, c: Currency) -> ParseOutcome {
    let body = if s.len() > 0 && s[0] == c.symbol {
        s.drop_first()
    } else {
        s
    };
    if has_two(body, c.exponent_seperator) {
        ParseOutcome::InvalidParts
    } else {
        match parse_u64_seq(spec_digits_of(body, c)) {
            Some(t) => ParseOutcome::Amount(t),
            None => ParseOutcome::InvalidTotal,
        }
    }
}

impl Currency {
    /// What the round trip through `format` relies on: at least one minor
    /// digit, few enough that the scale fits a `u64`, and separators that
    /// cannot be mistaken for digits.
    pub open spec fn wf(self) -> bool {
        &&& 1 <= self.exponent <= 19
        &&& !is_digit_char(self.exponent_seperator)
        &&& !is_digit_char(self.digit_seperator)
    }
}

pub open spec fn digit_char(d: nat) -> char {
    if d == 0 {
        '0'
    } else if d == 1 {
        '1'
    } else if d == 2 {
        '2'
    } else if d == 3 {
        '3'
    } else if d == 4 {
        '4'
    } else if d == 5 {
        '5'
    } else if d == 6 {
        '6'
    } else if d == 7 {
        '7'
    } else if d == 8 {
        '8'
    } else {
        '9'
    }
}

/// Decimal digits of `n`, most significant first, with no leading zeros
/// (a single `'0'` for zero itself).
pub open spec fn dec_digits(n: nat) -> Seq<char>
    decreases n,
{
    if n < 10 {
        seq![digit_char(n)]
    } else {
        dec_digits(n / 10) + seq![digit_char(n % 10)]
    }
}

/// A digit string padded on the left with zeros up to `e` digits.
pub open spec fn pad_left(s: Seq<char>, e: nat) -> Seq<char> {
    if s.len() >= e {
        s
    } else {
        zeros((e - s.len()) as nat) + s
    }
}

/// The exact text `format` produces: symbol, major units, separator, and
/// the minor units zero-padded to the currency's digit count.
pub open spec fn spec_format(m: Money) -> Seq<char> {
    let p = pow10(m.currency.exponent as nat);
    seq![m.currency.symbol] + dec_digits((m.total as nat) / p)
        + seq![m.currency.exponent_seperator] + pad_left(
        dec_digits((m.total as nat) % p),
        m.currency.exponent as nat,
    )
}

pub(crate) proof fn lemma_first_at_unique(s: Seq<char>, x: char, i: int, j: int)
    requires
        is_first_at(s, x, i),
        is_first_at(s, x, j),
    ensures
        i == j,
{
}

/// Appending digits never decreases the value read so far.
proof fn lemma_digits_val_prefix_le(s: Seq<char>, i: int)
    requires
        0 <= i <= s.len(),
    ensures
        digits_val(s.take(i)) <= digits_val(s),
    decreases s.len(),
{
    if i < s.len() {
        assert(s.drop_last().take(i) =~= s.take(i));
        lemma_digits_val_prefix_le(s.drop_last(), i);
    } else {
        assert(s.take(i) =~= s);
    }
}

impl Money {
    /// Parses marketplace price text into minor units of `currency`.
    pub fn from_str(s: &str, currency: &Currency) -> (r: Result<Money, String>)
        ensures
            match spec_parse(s@, *currency) {
                ParseOutcome::Amount(t) => r == Ok::<Money, String>(
                    (Money { currency: *currency, total: t }),
                ),
                ParseOutcome::InvalidParts => r is Err && r->Err_0@ == "Invalid number of parts"@,
                ParseOutcome::InvalidTotal => r is Err && r->Err_0@ == "Failed to parse total"@,
            },
    {
        let cs = text::chars_of(s);
        let start: usize = if cs.len() > 0 && cs[0] == currency.symbol {
            1
        } else {
            0
        };
        proof {
            let spec_body = if s@.len() > 0 && s@[0] == currency.symbol {
                s@.drop_first()
            } else {
                s@
            };
            assert(spec_body =~= cs@.skip(start as int));
        }
        match assemble_digits(&cs, start, currency) {
            Err(()) => Err("Invalid number of parts".to_owned()),
            Ok(digits) => match parse_u64_chars(&digits) {
                Some(total) => Ok(Money { currency: *currency, total }),
                None => Err("Failed to parse total".to_owned()),
            },
        }
    }
}

/// Splits the text after the symbol on the decimal separator and builds
/// the digit string `spec_digits_of` names; two separators reject it.
#[verifier::rlimit(100)]
#[verifier::spinoff_prover]
#[verifier::loop_isolation(false)]
fn assemble_digits(cs: &Vec<char>, start: usize, currency: &Currency) -> (r: Result<
    Vec<char>,
    (),
>)
    requires
        start <= cs@.len(),
    ensures
        ({
            let body = cs@.skip(start as int);
            match r {
                Err(()) => has_two(body, currency.exponent_seperator),
                Ok(digits) => !has_two(body, currency.exponent_seperator) && digits@
                    == spec_digits_of(body, *currency),
            }
        }),
{
    let ghost view = cs@;
    let ghost body = cs@.skip(start as int);

    // Locate the decimal separator, rejecting a second occurrence.
    let mut p1: Option<usize> = None;
    let mut i: usize = start;
    while i < cs.len()
        invariant
            cs@ == view,
            start <= i <= cs.len(),
            body == view.skip(start as int),
            match p1 {
                None => forall|j: int|
                    start <= j < i ==> view[j] != currency.exponent_seperator,
                Some(p) => {
                    &&& start <= p < i
                    &&& view[p as int] == currency.exponent_seperator
                    &&& forall|j: int|
                        start <= j < i && j != p ==> view[j] != currency.exponent_seperator
                },
            },
        decreases cs.len() - i,
    {
        if cs[i] == currency.exponent_seperator {
            match p1 {
                None => {
                    p1 = Some(i);
                },
                Some(p) => {
                    proof {
                        assert(body[p - start] == currency.exponent_seperator);
                        assert(body[i - start] == currency.exponent_seperator);
                        assert(has_two(body, currency.exponent_seperator));
                    }
                    return Err(());
                },
            }
        }
        i += 1;
    }
    proof {
        if has_two(body, currency.exponent_seperator) {
            let (a, b): (int, int) = choose|a: int, b: int|
                0 <= a < b < body.len() && body[a] == currency.exponent_seperator
                    && body[b] == currency.exponent_seperator;
            assert(view[a + start] == currency.exponent_seperator);
            assert(view[b + start] == currency.exponent_seperator);
            assert(false);
        }
    }

    // Assemble the digit string: cleaned major part, then the minor part
    // padded to the currency's digit count.
    let maj_end: usize = match p1 {
        Some(p) => p,
        None => cs.len(),
    };
    let mut digits: Vec<char> = Vec::new();
    let mut j: usize = start;
    while j < maj_end
        invariant
            cs@ == view,
            start <= j <= maj_end <= cs.len(),
            body == view.skip(start as int),
            digits@ == remove_char(body.take(j - start), currency.digit_seperator),
        decreases maj_end - j,
    {
        proof {
            assert(body.take(j + 1 - start).drop_last() =~= body.take(j - start));
            assert(body.take(j + 1 - start).last() == view[j as int]);
        }
        if cs[j] != currency.digit_seperator {
            digits.push(cs[j]);
        }
        j += 1;
    }

    let ghost maj_clean = digits@;
    let mut minor_len: usize = 0;
    let ghost mut minor_raw: Seq<char> = Seq::empty();
    match p1 {
        Some(p) => {
            proof {
                minor_raw = body.skip(p + 1 - start);
            }
            let mut k: usize = p + 1;
            while k < cs.len()
                invariant
                    cs@ == view,
                    p + 1 <= k <= cs.len(),
                    start <= p,
                    body == view.skip(start as int),
                    minor_raw == body.skip(p + 1 - start),
                    minor_len == k - p - 1,
                    digits@ == maj_clean + minor_raw.take(k - p - 1),
                decreases cs.len() - k,
            {
                digits.push(cs[k]);
                k += 1;
                minor_len += 1;
                proof {
                    assert(minor_raw.take(k - p - 1)
                        =~= minor_raw.take(k - 1 - p - 1).push(view[k - 1]));
                }
            }
            proof {
                assert(minor_raw.take(cs.len() - p - 1) =~= minor_raw);
                assert(digits@ == maj_clean + minor_raw);
            }
        },
        None => {
            digits.push('0');
            digits.push('0');
            minor_len = 2;
            proof {
                minor_raw = seq!['0', '0'];
                assert(digits@ =~= maj_clean + minor_raw);
            }
        },
    }
    proof {
        assert(digits@ == maj_clean + minor_raw);
        assert(minor_len == minor_raw.len());
    }

    let exp: usize = currency.exponent as usize;
    proof {
        assert(maj_clean + minor_raw + zeros(0) =~= maj_clean + minor_raw);
    }
    while minor_len < exp
        invariant
            digits@ == maj_clean + minor_raw + zeros((minor_len - minor_raw.len()) as nat),
            minor_raw.len() <= minor_len,
            minor_raw.len() < exp ==> minor_len <= exp,
            minor_raw.len() >= exp ==> minor_len == minor_raw.len(),
        decreases exp - minor_len,
    {
        digits.push('0');
        minor_len += 1;
        proof {
            assert(maj_clean + minor_raw + zeros((minor_len - minor_raw.len()) as nat)
                =~= (maj_clean + minor_raw + zeros(
                (minor_len - 1 - minor_raw.len()) as nat,
            )).push('0'));
        }
    }
    proof {
        if minor_raw.len() >= exp {
            assert(digits@ =~= maj_clean + pad_minor(minor_raw, exp as nat));
        } else {
            assert(minor_len == exp);
            assert(digits@ =~= maj_clean + pad_minor(minor_raw, exp as nat));
        }
        // Tie the assembled digit string to the one the spec names.
        match p1 {
            Some(p) => {
                assert(has_char(body, currency.exponent_seperator)) by {
                    assert(body[p - start] == currency.exponent_seperator);
                }
                let fi = choose|fi: int|
                    is_first_at(body, currency.exponent_seperator, fi);
                assert(is_first_at(body, currency.exponent_seperator, p - start));
                lemma_first_at_unique(body, currency.exponent_seperator, fi, p - start);
                assert(fi == p - start);
                assert(maj_clean == remove_char(
                    body.take(fi),
                    currency.digit_seperator,
                ));
                assert(minor_raw == body.skip(fi + 1));
            },
            None => {
                assert(!has_char(body, currency.exponent_seperator)) by {
                    if has_char(body, currency.exponent_seperator) {
                        let t = choose|t: int|
                            0 <= t < body.len() && body[t] == currency.exponent_seperator;
                        assert(view[t + start] == currency.exponent_seperator);
                    }
                }
                assert(body.take(cs.len() - start) =~= body);
                assert(maj_clean == remove_char(body, currency.digit_seperator));
                assert(minor_raw == seq!['0', '0']);
            },
        }
        assert(digits@ == spec_digits_of(body, *currency));
    }

    Ok(digits)
}

/// Reads a character vector as unsigned decimal text, exactly as
/// `parse_u64_seq` describes it.
#[verifier::loop_isolation(false)]
pub(crate) fn parse_u64_chars(digits: &Vec<char>) -> (r: Option<u64>)
    ensures
        r == parse_u64_seq(digits@),
{
    let ghost all = digits@;
    let sidx: usize = if digits.len() > 0 && digits[0] == '+' {
        1
    } else {
        0
    };
    let ghost ds = if sidx == 1 {
        all.drop_first()
    } else {
        all
    };
    proof {
        assert(ds =~= all.skip(sidx as int));
    }
    if digits.len() == sidx {
        return None;
    }
    let mut acc: u64 = 0;
    let mut q: usize = sidx;
    while q < digits.len()
        invariant
            sidx <= q <= digits.len(),
            acc == digits_val(ds.take(q - sidx)),
            forall|t: int| 0 <= t < q - sidx ==> is_digit_char(#[trigger] ds[t]),
        decreases digits.len() - q,
    {
        let c = digits[q];
        let v = c as u32;
        proof {
            assert(ds.take(q + 1 - sidx).drop_last() =~= ds.take(q - sidx));
            assert(ds.take(q + 1 - sidx).last() == all[q as int]);
        }
        if v < 48 || v > 57 {
            proof {
                assert(!is_digit_char(ds[q - sidx]));
                assert(!all_digits(ds));
            }
            return None;
        }
        let d = (v - 48) as u64;
        let acc10 = match acc.checked_mul(10) {
            Some(x) => x,
            None => {
                proof {
                    lemma_digits_val_prefix_le(ds, q + 1 - sidx);
                    assert(digits_val(ds.take(q + 1 - sidx)) > u64::MAX);
                }
                return None;
            },
        };
        acc = match acc10.checked_add(d) {
            Some(x) => x,
            None => {
                proof {
                    lemma_digits_val_prefix_le(ds, q + 1 - sidx);
                    assert(digits_val(ds.take(q + 1 - sidx)) > u64::MAX);
                }
                return None;
            },
        };
        q += 1;
    }
    proof {
        assert(ds.take(digits.len() - sidx) =~= ds);
    }
    Some(acc)
}

proof fn lemma_pow10_pos(e: nat)
    ensures
        pow10(e) >= 1,
    decreases e,
{
    if e > 0 {
        lemma_pow10_pos((e - 1) as nat);
    }
}

proof fn lemma_pow10_mono(a: nat, b: nat)
    requires
        a <= b,
    ensures
        pow10(a) <= pow10(b),
    decreases b,
{
    if a < b {
        lemma_pow10_mono(a, (b - 1) as nat);
        lemma_pow10_pos((b - 1) as nat);
    }
}

proof fn lemma_pow10_19()
    ensures
        pow10(19) == 10_000_000_000_000_000_000,
{
    reveal_with_fuel(pow10, 21);
}

proof fn lemma_dec_digits_all_digits(n: nat)
    ensures
        all_digits(dec_digits(n)),
        dec_digits(n).len() >= 1,
    decreases n,
{
    if n >= 10 {
        lemma_dec_digits_all_digits(n / 10);
        let a = dec_digits(n / 10);
        let b = seq![digit_char(n % 10)];
        assert forall|i: int| 0 <= i < (a + b).len() implies is_digit_char(#[trigger] (a + b)[i]) by {
            if i < a.len() {
                assert(is_digit_char(a[i]));
            }
        }
    }
}

proof fn lemma_digit_char_val(d: nat)
    requires
        d < 10,
    ensures
        digit_val(digit_char(d)) == d,
        is_digit_char(digit_char(d)),
{
    if d == 0 {
        assert(('0' as u32) == 48);
    } else if d == 1 {
        assert(('1' as u32) == 49);
    } else if d == 2 {
        assert(('2' as u32) == 50);
    } else if d == 3 {
        assert(('3' as u32) == 51);
    } else if d == 4 {
        assert(('4' as u32) == 52);
    } else if d == 5 {
        assert(('5' as u32) == 53);
    } else if d == 6 {
        assert(('6' as u32) == 54);
    } else if d == 7 {
        assert(('7' as u32) == 55);
    } else if d == 8 {
        assert(('8' as u32) == 56);
    } else {
        assert(('9' as u32) == 57);
    }
}

proof fn lemma_dec_digits_val(n: nat)
    ensures
        digits_val(dec_digits(n)) == n,
    decreases n,
{
    reveal_with_fuel(digits_val, 3);
    if n < 10 {
        lemma_digit_char_val(n);
        assert(seq![digit_char(n)].drop_last() =~= Seq::<char>::empty());
        assert(seq![digit_char(n)].last() == digit_char(n));
    } else {
        lemma_digit_char_val(n % 10);
        lemma_dec_digits_val(n / 10);
        let a = dec_digits(n / 10);
        let w = a + seq![digit_char(n % 10)];
        assert(w.drop_last() =~= a);
        vstd::arithmetic::div_mod::lemma_fundamental_div_mod(n as int, 10);
    }
}

proof fn lemma_digits_val_concat(a: Seq<char>, b: Seq<char>)
    ensures
        digits_val(a + b) == digits_val(a) * pow10(b.len()) + digits_val(b),
    decreases b.len(),
{
    if b.len() == 0 {
        assert(a + b =~= a);
        assert(pow10(0) == 1);
    } else {
        lemma_digits_val_concat(a, b.drop_last());
        assert((a + b).drop_last() =~= a + b.drop_last());
        assert((a + b).last() == b.last());
        let va = digits_val(a);
        let k = (b.len() - 1) as nat;
        assert(digits_val(a + b) == (va * pow10(k) + digits_val(b.drop_last())) * 10 + digit_val(
            b.last(),
        ));
        assert((va * pow10(k) + digits_val(b.drop_last())) * 10 == va * pow10(k) * 10
            + digits_val(b.drop_last()) * 10) by (nonlinear_arith);
        assert(va * pow10(k) * 10 == va * (pow10(k) * 10)) by (nonlinear_arith);
        assert(pow10(k) * 10 == pow10(b.len()));
    }
}

proof fn lemma_digits_val_zeros(k: nat)
    ensures
        digits_val(zeros(k)) == 0,
    decreases k,
{
    if k > 0 {
        lemma_digits_val_zeros((k - 1) as nat);
        assert(zeros(k).drop_last() =~= zeros((k - 1) as nat));
        assert(zeros(k).last() == '0');
    }
}

proof fn lemma_pad_left_val(s: Seq<char>, e: nat)
    ensures
        digits_val(pad_left(s, e)) == digits_val(s),
{
    if s.len() < e {
        let d = (e - s.len()) as nat;
        lemma_digits_val_concat(zeros(d), s);
        lemma_digits_val_zeros(d);
    }
}

/// A number below `10^k` needs at most `k` digits.
proof fn lemma_dec_len_le(n: nat, k: nat)
    requires
        n < pow10(k),
        k >= 1,
    ensures
        dec_digits(n).len() <= k,
    decreases k,
{
    if n >= 10 {
        assert(pow10(k) == 10 * pow10((k - 1) as nat));
        assert(k >= 2) by {
            if k == 1 {
                assert(pow10(1) == 10);
            }
        }
        assert(n / 10 < pow10((k - 1) as nat)) by {
            vstd::arithmetic::div_mod::lemma_fundamental_div_mod(n as int, 10);
        }
        lemma_dec_len_le(n / 10, (k - 1) as nat);
    }
}

/// Removing a non-digit character from pure digit text changes nothing.
proof fn lemma_remove_char_id(s: Seq<char>, x: char)
    requires
        all_digits(s),
        !is_digit_char(x),
    ensures
        remove_char(s, x) == s,
    decreases s.len(),
{
    if s.len() > 0 {
        assert(all_digits(s.drop_last())) by {
            assert(forall|i: int|
                0 <= i < s.len() - 1 ==> #[trigger] s.drop_last()[i] == s[i]);
        }
        lemma_remove_char_id(s.drop_last(), x);
        assert(is_digit_char(s.last()));
        assert(remove_char(s, x) =~= s);
    }
}

fn digit_char_of(d: u64) -> (c: char)
    requires
        d < 10,
    ensures
        c == digit_char(d as nat),
{
    if d == 0 {
        '0'
    } else if d == 1 {
        '1'
    } else if d == 2 {
        '2'
    } else if d == 3 {
        '3'
    } else if d == 4 {
        '4'
    } else if d == 5 {
        '5'
    } else if d == 6 {
        '6'
    } else if d == 7 {
        '7'
    } else if d == 8 {
        '8'
    } else {
        '9'
    }
}

fn dec_digits_u64(n: u64) -> (r: Vec<char>)
    ensures
        r@ == dec_digits(n as nat),
    decreases n,
{
    if n < 10 {
        let mut out: Vec<char> = Vec::new();
        out.push(digit_char_of(n));
        proof {
            assert(out@ =~= dec_digits(n as nat));
        }
        out
    } else {
        let mut out = dec_digits_u64(n / 10);
        out.push(digit_char_of(n % 10));
        proof {
            assert(out@ =~= dec_digits(n as nat));
        }
        out
    }
}

impl Money {
    /// Renders the amount as symbol, major units, separator, and the minor
    /// units zero-padded to the currency's digit count. The inverse of
    /// `from_str` up to notation: see `lemma_parse_format_roundtrip`.
    #[verifier::loop_isolation(false)]
    pub fn format(&self) -> (r: String)
        requires
            self.currency.exponent <= 19,
        ensures
            r@ == spec_format(*self),
    {
        let e = self.currency.exponent;
        let mut scale: u64 = 1;
        let mut i: u8 = 0;
        while i < e
            invariant
                i <= e,
                scale == pow10(i as nat),
            decreases e - i,
        {
            proof {
                lemma_pow10_mono((i + 1) as nat, 19);
                lemma_pow10_19();
            }
            scale = scale * 10;
            i += 1;
        }
        proof {
            lemma_pow10_pos(e as nat);
        }
        let major = self.total / scale;
        let minor = self.total % scale;
        let mut out: Vec<char> = Vec::new();
        out.push(self.currency.symbol);
        let mut majd = dec_digits_u64(major);
        out.append(&mut majd);
        out.push(self.currency.exponent_seperator);
        let ghost head = out@;
        let mind = dec_digits_u64(minor);
        proof {
            if e >= 1 {
                lemma_dec_len_le(minor as nat, e as nat);
            }
        }
        let mut k: usize = mind.len();
        while k < e as usize
            invariant
                mind@.len() <= k,
                k <= e as usize || k == mind@.len(),
                out@ == head + zeros((k - mind@.len()) as nat),
            decreases e as usize - k,
        {
            out.push('0');
            k += 1;
            proof {
                assert(head + zeros((k - mind@.len()) as nat) =~= (head + zeros(
                    (k - 1 - mind@.len()) as nat,
                )).push('0'));
            }
        }
        let mut mind2 = mind;
        out.append(&mut mind2);
        proof {
            assert(head + zeros(0) =~= head);
            assert(out@ =~= spec_format(*self));
        }
        text::string_from_chars(&out)
    }
}

impl From<&Money> for u64 {
    /// The amount in minor units.
    fn from(value: &Money) -> (r: u64)
        ensures
            r == value.total,
    {
        value.total
    }
}

impl vstd::std_specs::convert::FromSpecImpl<&Money> for u64 {
    open spec fn obeys_from_spec() -> bool {
        true
    }

    open spec fn from_spec(m: &Money) -> u64 {
        m.total
    }
}

/// Pound sterling as the marketplace writes it: a `£` prefix, `.` before
/// the pence, `,` between digit groups, two pence digits.
pub open spec fn spec_gbp() -> Currency {
    Currency { symbol: '\u{A3}', exponent_seperator: '.', digit_seperator: ',', exponent: 2 }
}

pub fn gbp() -> (c: Currency)
    ensures
        c == spec_gbp(),
        c.wf(),
{
    Currency { symbol: '\u{A3}', exponent_seperator: '.', digit_seperator: ',', exponent: 2 }
}

/// Formatting an amount and parsing it back yields exactly that amount:
/// `format` writes no grouping separators, exactly one decimal separator,
/// and minor units padded to the currency's digit count, all of which
/// `from_str` undoes.
pub proof fn lemma_parse_format_roundtrip(c: Currency, total: u64)
    requires
        c.wf(),
    ensures
        spec_parse(spec_format((Money { currency: c, total })), c) == ParseOutcome::Amount(total),
{
    let e = c.exponent as nat;
    let p = pow10(e);
    lemma_pow10_pos(e);
    let major = (total as nat) / p;
    let minor = (total as nat) % p;
    let a = dec_digits(major);
    let b = pad_left(dec_digits(minor), e);
    let s = spec_format((Money { currency: c, total }));
    lemma_dec_digits_all_digits(major);
    lemma_dec_digits_all_digits(minor);
    vstd::arithmetic::div_mod::lemma_mod_division_less_than_divisor(total as int, p as int);
    lemma_dec_len_le(minor, e);
    assert(b.len() == e);
    assert(all_digits(b)) by {
        if dec_digits(minor).len() < e {
            let d = (e - dec_digits(minor).len()) as nat;
            assert forall|i: int| 0 <= i < b.len() implies is_digit_char(#[trigger] b[i]) by {
                if i < d {
                    assert(b[i] == '0');
                } else {
                    assert(b[i] == dec_digits(minor)[i - d]);
                }
            }
        }
    }

    // The text after the symbol: digits, one separator, digits.
    let body = a + seq![c.exponent_seperator] + b;
    assert(s == seq![c.symbol] + body) by {
        assert(seq![c.symbol] + (a + seq![c.exponent_seperator] + b) =~= seq![c.symbol] + a
            + seq![c.exponent_seperator] + b);
    }
    assert(s.len() > 0 && s[0] == c.symbol);
    assert(s.drop_first() =~= body);

    let al = a.len() as int;
    assert(body[al] == c.exponent_seperator);
    assert(forall|i: int| 0 <= i < al ==> #[trigger] body[i] == a[i]);
    assert(forall|i: int|
        al < i < body.len() ==> #[trigger] body[i] == b[i - al - 1]);
    assert(forall|i: int|
        0 <= i < body.len() && i != al ==> is_digit_char(#[trigger] body[i]));

    assert(!has_two(body, c.exponent_seperator)) by {
        if has_two(body, c.exponent_seperator) {
            let (x, y): (int, int) = choose|x: int, y: int|
                0 <= x < y < body.len() && body[x] == c.exponent_seperator && body[y]
                    == c.exponent_seperator;
            assert(x == al && y == al);
        }
    }
    assert(has_char(body, c.exponent_seperator)) by {
        assert(body[al] == c.exponent_seperator);
    }
    assert(is_first_at(body, c.exponent_seperator, al));
    let fi = choose|fi: int| is_first_at(body, c.exponent_seperator, fi);
    lemma_first_at_unique(body, c.exponent_seperator, fi, al);
    assert(body.take(al) =~= a);
    assert(body.skip(al + 1) =~= b);

    lemma_remove_char_id(a, c.digit_seperator);
    assert(pad_minor(b, e) == b);
    let digits = a + b;

    // Reading the digit string back gives the original amount.
    assert(a[0] != '+') by {
        assert(is_digit_char(a[0]));
    }
    assert(digits[0] == a[0]);
    assert(digits.len() > 0);
    assert(all_digits(digits)) by {
        assert forall|i: int| 0 <= i < digits.len() implies is_digit_char(
            #[trigger] digits[i],
        ) by {
            if i < al {
                assert(digits[i] == a[i]);
            } else {
                assert(digits[i] == b[i - al]);
            }
        }
    }
    lemma_digits_val_concat(a, b);
    lemma_pad_left_val(dec_digits(minor), e);
    lemma_dec_digits_val(major);
    lemma_dec_digits_val(minor);
    vstd::arithmetic::div_mod::lemma_fundamental_div_mod(total as int, p as int);
    assert(digits_val(digits) == major * p + minor);
    assert(major * p == p * major) by (nonlinear_arith);
    assert(digits_val(digits) == total);
}

/// Parsing, formatting, and parsing again is idempotent: whenever some text
/// parses to an amount, formatting that amount and parsing the result gives
/// the same outcome.
pub proof fn lemma_parse_format_parse(s: Seq<char>, c: Currency, t: u64)
    requires
        c.wf(),
        spec_parse(s, c) == ParseOutcome::Amount(t),
    ensures
        spec_parse(spec_format((Money { currency: c, total: t })), c) == spec_parse(s, c),
{
    lemma_parse_format_roundtrip(c, t);
}

} // verus!
