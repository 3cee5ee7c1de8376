//! Character-level helpers shared by the parsing and matching logic.
//!
//! All matching in this crate works over `Vec<char>`, so that every
//! comparison is stated against the string views (`Seq<char>`) directly.
use vstd::prelude::*;
use vstd::std_specs::iter::IteratorSpec;

verus! {

broadcast use vstd::string::axiom_spec_iter, vstd::string::next_postcondition;

/// Collects the characters of a string slice into a vector, so that the
/// rest of the crate can index them freely.
pub fn chars_of(s: &str) -> (r: Vec<char>)
    ensures
        r@ == s@,
{
    let mut it = s.chars();
    let mut out: Vec<char> = Vec::new();
    loop
        invariant
            out@ + it.remaining() == s@,
            it.obeys_prophetic_iter_laws(),
            it.decrease() is Some,
        ensures
            out@ == s@,
        decreases it.decrease()->0,
    {
        match it.next() {
            Some(c) => out.push(c),
            None => {
                proof {
                    assert(out@ =~= s@);
                }
                break;
            },
        }
    }
    out
}

/// Character-for-character string equality.
#[verifier::loop_isolation(false)]
pub fn str_eq(a: &str, b: &str) -> (r: bool)
    ensures
        r == (a@ == b@),
{
    let va = chars_of(a);
    let vb = chars_of(b);
    if va.len() != vb.len() {
        return false;
    }
    let mut i: usize = 0;
    while i < va.len()
        invariant
            i <= va.len(),
            forall|j: int| 0 <= j < i ==> a@[j] == b@[j],
        decreases va.len() - i,
    {
        if va[i] != vb[i] {
            return false;
        }
        i += 1;
    }
    proof {
        assert(a@ =~= b@);
    }
    true
}

/// Relies on `String: FromIterator<char>`: collecting characters builds the
/// string of exactly those characters, in order.
#[verifier::external_body]
pub(crate) fn string_from_chars(v: &Vec<char>) -> (r: String)
    ensures
        r@ == v@,
{
    v.iter().collect()
}

/// What `str::to_lowercase` returns; the result depends on the characters
/// alone, so it is only named here, never written out.
pub uninterp spec fn lower_of(s: Seq<char>) -> Seq<char>;

/// Relies on `str::to_lowercase`: the result is a function of the
/// characters alone, named `lower_of`.
#[verifier::external_body]
pub(crate) fn lowercase(s: &str) -> (r: String)
    ensures
        r@ == lower_of(s@),
{
    s.to_lowercase()
}

/// The Unicode `White_Space` characters, exactly the set
/// `char::is_whitespace` accepts.
pub open spec fn is_ws_char(c: char) -> bool {
    ||| c as u32 == 9
    ||| c as u32 == 10
    ||| c as u32 == 11
    ||| c as u32 == 12
    ||| c as u32 == 13
    ||| c as u32 == 32
    ||| c as u32 == 0x85
    ||| c as u32 == 0xA0
    ||| c as u32 == 0x1680
    ||| (0x2000 <= c as u32 && c as u32 <= 0x200A)
    ||| c as u32 == 0x2028
    ||| c as u32 == 0x2029
    ||| c as u32 == 0x202F
    ||| c as u32 == 0x205F
    ||| c as u32 == 0x3000
}

pub fn is_ws(c: char) -> (r: bool)
    ensures
        r == is_ws_char(c),
{
    let v = c as u32;
    v == 9 || v == 10 || v == 11 || v == 12 || v == 13 || v == 32 || v == 0x85 || v == 0xA0
        || v == 0x1680 || (0x2000 <= v && v <= 0x200A) || v == 0x2028 || v == 0x2029 || v == 0x202F
        || v == 0x205F || v == 0x3000
}

/// `needle` occurs contiguously somewhere in `hay`.
pub open spec fn contains_seq(hay: Seq<char>, needle: Seq<char>) -> bool {
    exists|i: int|
        0 <= i <= hay.len() - needle.len() && #[trigger] hay.subrange(i, i + needle.len())
            == needle
}

/// Substring search, the contract `str::contains` would have.
#[verifier::loop_isolation(false)]
pub fn contains_chars(hay: &Vec<char>, needle: &Vec<char>) -> (r: bool)
    ensures
        r == contains_seq(hay@, needle@),
{
    if needle.len() > hay.len() {
        return false;
    }
    let mut i: usize = 0;
    while i <= hay.len() - needle.len()
        invariant
            i <= hay.len() - needle.len() + 1,
            forall|t: int|
                0 <= t < i ==> #[trigger] hay@.subrange(t, t + needle@.len()) != needle@,
        decreases hay.len() - needle.len() - i + 1,
    {
        let mut j: usize = 0;
        while j < needle.len() && hay[i + j] == needle[j]
            invariant
                j <= needle.len(),
                forall|t: int| 0 <= t < j ==> hay@[i + t] == needle@[t],
            decreases needle.len() - j,
        {
            j += 1;
        }
        if j == needle.len() {
            proof {
                assert(hay@.subrange(i as int, i + needle@.len()) =~= needle@);
            }
            return true;
        }
        proof {
            assert(hay@.subrange(i as int, i + needle@.len())[j as int] == hay@[i + j]);
            assert(hay@.subrange(i as int, i + needle@.len()) != needle@);
        }
        i += 1;
    }
    false
}

/// A maximal run of non-whitespace characters: what `split_whitespace`
/// yields as one token.
pub open spec fn is_token_run(s: Seq<char>, a: int, b: int) -> bool {
    &&& 0 <= a < b <= s.len()
    &&& forall|i: int| a <= i < b ==> !is_ws_char(#[trigger] s[i])
    &&& (a == 0 || is_ws_char(s[a - 1]))
    &&& (b == s.len() || is_ws_char(s[b]))
}

/// Every whitespace-delimited token of `s` occurs in `hay`.
pub open spec fn all_tokens_contained(hay: Seq<char>, s: Seq<char>) -> bool {
    forall|a: int, b: int| is_token_run(s, a, b) ==> contains_seq(hay, s.subrange(a, b))
}

/// Element-for-element equality of two character vectors.
#[verifier::loop_isolation(false)]
pub fn chars_eq(a: &Vec<char>, b: &Vec<char>) -> (r: bool)
    ensures
        r == (a@ == b@),
{
    if a.len() != b.len() {
        return false;
    }
    let mut i: usize = 0;
    while i < a.len()
        invariant
            i <= a.len(),
            forall|j: int| 0 <= j < i ==> a@[j] == b@[j],
        decreases a.len() - i,
    {
        if a[i] != b[i] {
            return false;
        }
        i += 1;
    }
    proof {
        assert(a@ =~= b@);
    }
    true
}

/// Some whitespace-delimited token of `s` is exactly `tok`.
pub open spec fn has_token(s: Seq<char>, tok: Seq<char>) -> bool {
    exists|a: int, b: int| is_token_run(s, a, b) && s.subrange(a, b) == tok
}

/// Checks whether any whitespace-delimited token of `s` equals `tok`.
#[verifier::loop_isolation(false)]
pub fn contains_token(s: &Vec<char>, tok: &Vec<char>) -> (r: bool)
    ensures
        r == has_token(s@, tok@),
{
    let n = s.len();
    let mut i: usize = 0;
    while i < n
        invariant
            i <= n,
            (i < n && !is_ws_char(s@[i as int])) ==> (i == 0 || is_ws_char(s@[i - 1])),
            forall|x: int, y: int|
                is_token_run(s@, x, y) && y <= i ==> s@.subrange(x, y) != tok@,
        decreases n - i,
    {
        if is_ws(s[i]) {
            i += 1;
        } else {
            let a = i;
            let mut b = i;
            while b < n && !is_ws(s[b])
                invariant
                    a <= b <= n,
                    forall|t: int| a <= t < b ==> !is_ws_char(#[trigger] s@[t]),
                decreases n - b,
            {
                b += 1;
            }
            let mut run: Vec<char> = Vec::new();
            let mut t = a;
            while t < b
                invariant
                    a <= t <= b,
                    run@ == s@.subrange(a as int, t as int),
                decreases b - t,
            {
                run.push(s[t]);
                t += 1;
                proof {
                    assert(s@.subrange(a as int, t as int) =~= s@.subrange(
                        a as int,
                        t - 1,
                    ).push(s@[t - 1]));
                }
            }
            if chars_eq(&run, tok) {
                proof {
                    assert(is_token_run(s@, a as int, b as int));
                }
                return true;
            }
            proof {
                assert forall|x: int, y: int|
                    is_token_run(s@, x, y) && y <= b implies s@.subrange(x, y) != tok@ by {
                    if y > i {
                        assert(!is_ws_char(s@[y - 1]));
                        assert(y == b) by {
                            if y < b {
                                assert(!is_ws_char(s@[y]));
                            }
                        }
                        assert(x == a as int) by {
                            if x < a as int {
                                assert(!is_ws_char(s@[a - 1]));
                            } else if x > a as int {
                                assert(!is_ws_char(s@[x - 1]));
                            }
                        }
                    }
                }
            }
            i = b;
        }
    }
    false
}

/// Checks that every whitespace-delimited token of `s` occurs in `hay`
/// (vacuously true when `s` has no token).
#[verifier::loop_isolation(false)]
pub fn tokens_contained(hay: &Vec<char>, s: &Vec<char>) -> (r: bool)
    ensures
        r == all_tokens_contained(hay@, s@),
{
    let n = s.len();
    let mut i: usize = 0;
    while i < n
        invariant
            i <= n,
            (i < n && !is_ws_char(s@[i as int])) ==> (i == 0 || is_ws_char(s@[i - 1])),
            forall|x: int, y: int|
                is_token_run(s@, x, y) && y <= i ==> contains_seq(hay@, s@.subrange(x, y)),
        decreases n - i,
    {
        if is_ws(s[i]) {
            i += 1;
        } else {
            let a = i;
            let mut b = i;
            while b < n && !is_ws(s[b])
                invariant
                    a <= b <= n,
                    forall|t: int| a <= t < b ==> !is_ws_char(#[trigger] s@[t]),
                decreases n - b,
            {
                b += 1;
            }
            let mut tok: Vec<char> = Vec::new();
            let mut t = a;
            while t < b
                invariant
                    a <= t <= b,
                    tok@ == s@.subrange(a as int, t as int),
                decreases b - t,
            {
                tok.push(s[t]);
                t += 1;
                proof {
                    assert(s@.subrange(a as int, t as int) =~= s@.subrange(
                        a as int,
                        t - 1,
                    ).push(s@[t - 1]));
                }
            }
            if !contains_chars(hay, &tok) {
                proof {
                    assert(is_token_run(s@, a as int, b as int));
                    assert(!all_tokens_contained(hay@, s@));
                }
                return false;
            }
            proof {
                assert forall|x: int, y: int|
                    is_token_run(s@, x, y) && y <= b implies contains_seq(
                    hay@,
                    s@.subrange(x, y),
                ) by {
                    if y > i {
                        // The only token run ending in `(i, b]` is `[a, b)`
                        // itself: its interior is non-whitespace and both
                        // sides are bounded by whitespace or the ends.
                        assert(!is_ws_char(s@[y - 1]));
                        assert(y == b) by {
                            if y < b {
                                assert(!is_ws_char(s@[y]));
                            }
                        }
                        assert(x == a as int) by {
                            if x < a as int {
                                assert(!is_ws_char(s@[a - 1]));
                            } else if x > a as int {
                                assert(!is_ws_char(s@[x - 1]));
                            }
                        }
                    }
                }
            }
            i = b;
        }
    }
    true
}

} // verus!
