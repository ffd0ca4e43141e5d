//! Textual timestamp parsing.
//!
//! A timestamp field reads like `"6609483.000 us"`: surrounding whitespace
//! is ignored, the first whitespace-separated token is read as a decimal
//! number and any unit token after it is ignored.  The decimal is turned
//! into integer clock ticks at a thousand ticks per unit (so microsecond
//! fields become nanosecond ticks); fractional digits past the third are
//! truncated.  A missing or malformed token, or a value too large for the
//! clock type, yields no value rather than an error.

use vstd::prelude::*;

verus! {

/// The whitespace recognized around and after the numeric token.
pub open spec fn is_space_char(c: char) -> bool {
    c == ' ' || c == '\t' || c == '\n' || c == '\r'
}

pub open spec fn is_digit_char(c: char) -> bool {
    48 <= c as u32 && c as u32 <= 57
}

pub open spec fn digit_val(c: char) -> int {
    (c as u32 - 48) as int
}

pub open spec fn all_digits(t: Seq<char>) -> bool {
    forall|i: int| 0 <= i < t.len() ==> is_digit_char(#[trigger] t[i])
}

/// The value of a run of decimal digits, most significant first.
pub open spec fn digits_val(t: Seq<char>) -> int
    decreases t.len(),
{
    if t.len() == 0 {
        0
    } else {
        digits_val(t.drop_last()) * 10 + digit_val(t.last())
    }
}

/// The value of a fractional digit run, scaled to three places; digits
/// past the third are truncated.
pub open spec fn frac_scaled(t: Seq<char>) -> int {
    if t.len() >= 3 {
        digits_val(t.subrange(0, 3))
    } else if t.len() == 2 {
        digits_val(t) * 10
    } else if t.len() == 1 {
        digits_val(t) * 100
    } else {
        0
    }
}

/// `t` is digits with a single dot at position `d`.
pub open spec fn is_dot_split(t: Seq<char>, d: int) -> bool {
    &&& 0 <= d < t.len()
    &&& t[d] == '.'
    &&& forall|j: int| 0 <= j < t.len() && j != d ==> is_digit_char(#[trigger] t[j])
}

/// A parseable decimal token: a non-empty digit run, or digits around a
/// single dot with at least one digit present.
pub open spec fn is_decimal_token(t: Seq<char>) -> bool {
    ||| (t.len() > 0 && all_digits(t))
    ||| (t.len() > 1 && exists|d: int| is_dot_split(t, d))
}

/// The tick value of a decimal token: a thousand ticks per whole unit.
pub open spec fn token_value(t: Seq<char>) -> int {
    if all_digits(t) {
        digits_val(t) * 1000
    } else {
        let d = choose|d: int| is_dot_split(t, d);
        digits_val(t.subrange(0, d)) * 1000 + frac_scaled(t.subrange(d + 1, t.len() as int))
    }
}

/// `s[a..b]` is the first whitespace-separated token of `s` (empty, with
/// `a == b == s.len()`, when `s` is all whitespace).
pub open spec fn token_bounds(s: Seq<char>, a: int, b: int) -> bool {
    &&& 0 <= a <= b <= s.len()
    &&& forall|j: int| 0 <= j < a ==> is_space_char(#[trigger] s[j])
    &&& (a < s.len() ==> !is_space_char(s[a]))
    &&& forall|j: int| a <= j < b ==> !is_space_char(#[trigger] s[j])
    &&& (b < s.len() ==> is_space_char(s[b]))
}

/// The tick value denoted by a timestamp string, if its first token is a
/// decimal number.
pub open spec fn spec_parse_time(s: Seq<char>) -> Option<int> {
    let (a, b) = choose|a: int, b: int| token_bounds(s, a, b);
    if token_bounds(s, a, b) && is_decimal_token(s.subrange(a, b)) {
        Some(token_value(s.subrange(a, b)))
    } else {
        None
    }
}

/// The first token of a string is unique.
pub proof fn lemma_token_bounds_unique(s: Seq<char>, a1: int, b1: int, a2: int, b2: int)
    requires
        token_bounds(s, a1, b1),
        token_bounds(s, a2, b2),
    ensures
        a1 == a2,
        b1 == b2,
{
    if a1 < a2 {
        assert(is_space_char(s[a1]));
        assert(false);
    }
    if a2 < a1 {
        assert(is_space_char(s[a2]));
        assert(false);
    }
    if b1 < b2 {
        assert(is_space_char(s[b1]));
        assert(!is_space_char(s[b1]));
        assert(false);
    }
    if b2 < b1 {
        assert(is_space_char(s[b2]));
        assert(!is_space_char(s[b2]));
        assert(false);
    }
}

/// With the first token located, an unparseable token settles the parse.
pub proof fn lemma_parse_time_none(s: Seq<char>, a: int, b: int)
    requires
        token_bounds(s, a, b),
        !is_decimal_token(s.subrange(a, b)),
    ensures
        spec_parse_time(s) is None,
{
    let (ca, cb) = choose|x: int, y: int| token_bounds(s, x, y);
    if token_bounds(s, ca, cb) {
        lemma_token_bounds_unique(s, ca, cb, a, b);
    }
}

/// With the first token located and parseable, the parse is its value.
pub proof fn lemma_parse_time_some(s: Seq<char>, a: int, b: int)
    requires
        token_bounds(s, a, b),
        is_decimal_token(s.subrange(a, b)),
    ensures
        spec_parse_time(s) == Some(token_value(s.subrange(a, b))),
{
    assert(token_bounds(s, a, b));
    let (ca, cb) = choose|x: int, y: int| token_bounds(s, x, y);
    lemma_token_bounds_unique(s, ca, cb, a, b);
}

/// A token has at most one dot position.
pub proof fn lemma_dot_split_unique(t: Seq<char>, d1: int, d2: int)
    requires
        is_dot_split(t, d1),
        is_dot_split(t, d2),
    ensures
        d1 == d2,
{
    if d1 != d2 {
        assert(is_digit_char(t[d1]));
        assert(false);
    }
}

/// A digit run is non-negative.
pub proof fn lemma_digits_val_nonneg(t: Seq<char>)
    requires
        all_digits(t),
    ensures
        digits_val(t) >= 0,
    decreases t.len(),
{
    if t.len() > 0 {
        let u = t.drop_last();
        assert(all_digits(u));
        lemma_digits_val_nonneg(u);
    }
}

/// Extending a digit run by one digit on the right multiplies its value
/// by ten and adds the digit.
pub proof fn lemma_digits_val_step(t: Seq<char>, k: int)
    requires
        0 <= k < t.len(),
    ensures
        digits_val(t.subrange(0, k + 1)) == digits_val(t.subrange(0, k)) * 10 + digit_val(t[k]),
{
    let u = t.subrange(0, k + 1);
    assert(u.drop_last() =~= t.subrange(0, k));
    assert(u.last() == t[k]);
}

/// A prefix of a digit run is worth no more than the whole run.
pub proof fn lemma_digits_val_prefix(t: Seq<char>, k: int)
    requires
        all_digits(t),
        0 <= k <= t.len(),
    ensures
        digits_val(t.subrange(0, k)) <= digits_val(t),
    decreases t.len() - k,
{
    if k == t.len() {
        assert(t.subrange(0, k) =~= t);
    } else {
        lemma_digits_val_step(t, k);
        let p = t.subrange(0, k);
        assert(all_digits(p));
        lemma_digits_val_nonneg(p);
        lemma_digits_val_prefix(t, k + 1);
    }
}

/// Small digit runs have small values.
pub proof fn lemma_digits_val_small(t: Seq<char>)
    requires
        all_digits(t),
        t.len() <= 3,
    ensures
        digits_val(t) >= 0,
        t.len() <= 1 ==> digits_val(t) <= 9,
        t.len() <= 2 ==> digits_val(t) <= 99,
        digits_val(t) <= 999,
    decreases t.len(),
{
    if t.len() > 0 {
        let u = t.drop_last();
        assert(all_digits(u));
        lemma_digits_val_small(u);
    }
}

/// A scaled fractional run is non-negative and below one whole unit.
pub proof fn lemma_frac_scaled_bounds(t: Seq<char>)
    requires
        all_digits(t),
    ensures
        0 <= frac_scaled(t) <= 999,
{
    if t.len() >= 3 {
        let p = t.subrange(0, 3);
        assert(all_digits(p));
        lemma_digits_val_small(p);
    } else {
        lemma_digits_val_small(t);
    }
}

/// Decomposition of a token value around its dot.
pub proof fn lemma_token_value_dot(t: Seq<char>, d: int)
    requires
        is_dot_split(t, d),
        t.len() > 1,
    ensures
        all_digits(t.subrange(0, d)),
        all_digits(t.subrange(d + 1, t.len() as int)),
        token_value(t) == digits_val(t.subrange(0, d)) * 1000 + frac_scaled(
            t.subrange(d + 1, t.len() as int),
        ),
        is_decimal_token(t),
{
    assert(!all_digits(t)) by {
        assert(t[d] == '.');
        assert(!is_digit_char(t[d]));
    }
    let cd = choose|x: int| is_dot_split(t, x);
    lemma_dot_split_unique(t, cd, d);
}

/// Exec mirror of [`is_space_char`].
fn space_char(c: char) -> (b: bool)
    ensures
        b == is_space_char(c),
{
    c == ' ' || c == '\t' || c == '\n' || c == '\r'
}

/// Reads the first whitespace-separated token of `time_str` as a decimal
/// number of clock units and returns it in ticks, a thousand ticks per
/// unit; returns nothing when the token is missing or malformed, or when
/// the value does not fit the clock type.
pub fn parse_time_from_string(time_str: &str) -> (r: Option<u64>)
    ensures
        r matches Some(v) ==> spec_parse_time(time_str@) == Some(v as int),
        r is None ==> (spec_parse_time(time_str@) is None || (spec_parse_time(time_str@)
            matches Some(v) && v > u64::MAX)),
{
    let n = time_str.unicode_len();
    let ghost sv = time_str@;

    // Token bounds: a = first non-space index, b = first space after it.
    let mut a: usize = 0;
    while a < n && space_char(time_str.get_char(a))
        invariant
            a <= n,
            n == sv.len(),
            time_str@ == sv,
            forall|j: int| 0 <= j < a ==> is_space_char(#[trigger] sv[j]),
        decreases n - a,
    {
        a = a + 1;
    }
    let mut b: usize = a;
    while b < n && !space_char(time_str.get_char(b))
        invariant
            a <= b <= n,
            n == sv.len(),
            time_str@ == sv,
            forall|j: int| 0 <= j < a ==> is_space_char(#[trigger] sv[j]),
            a < n ==> !is_space_char(sv[a as int]),
            forall|j: int| a <= j < b ==> !is_space_char(#[trigger] sv[j]),
        decreases n - b,
    {
        b = b + 1;
    }
    proof {
        assert(token_bounds(sv, a as int, b as int));
    }
    let ghost tok = sv.subrange(a as int, b as int);

    if a == b {
        proof {
            lemma_parse_time_none(sv, a as int, b as int);
        }
        return None;
    }

    // Shape check: digits with at most one dot, and not a lone dot.
    let mut dot: Option<usize> = None;
    let mut i: usize = a;
    while i < b
        invariant
            a <= i <= b <= n,
            n == sv.len(),
            time_str@ == sv,
            token_bounds(sv, a as int, b as int),
            tok == sv.subrange(a as int, b as int),
            match dot {
                Some(d) => a <= d < i && sv[d as int] == '.' && forall|j: int|
                    a <= j < i && j != d ==> is_digit_char(#[trigger] sv[j]),
                None => forall|j: int| a <= j < i ==> is_digit_char(#[trigger] sv[j]),
            },
        decreases b - i,
    {
        let c = time_str.get_char(i);
        if c == '.' {
            match dot {
                Some(d0) => {
                    proof {
                        assert(tok[d0 - a] == '.');
                        assert(tok[i - a] == '.');
                        assert(!all_digits(tok)) by {
                            assert(!is_digit_char(tok[i - a]));
                        }
                        assert forall|d: int| !is_dot_split(tok, d) by {
                            if is_dot_split(tok, d) {
                                if d != d0 - a {
                                    assert(is_digit_char(tok[d0 - a]));
                                } else {
                                    assert(is_digit_char(tok[i - a]));
                                }
                                assert(false);
                            }
                        }
                        assert(!is_decimal_token(tok));
                        lemma_parse_time_none(sv, a as int, b as int);
                    }
                    return None;
                },
                None => {
                    dot = Some(i);
                },
            }
        } else {
            let u = c as u32;
            if u < 48 || u > 57 {
                proof {
                    assert(tok[i - a] == c);
                    assert(!is_digit_char(c));
                    assert(!all_digits(tok));
                    assert forall|d: int| !is_dot_split(tok, d) by {
                        if is_dot_split(tok, d) {
                            if d == i - a {
                                assert(tok[d] == '.');
                            } else {
                                assert(is_digit_char(tok[i - a]));
                            }
                            assert(false);
                        }
                    }
                    assert(!is_decimal_token(tok));
                    lemma_parse_time_none(sv, a as int, b as int);
                }
                return None;
            }
        }
        i = i + 1;
    }

    // A lone dot is not a number.
    if b - a == 1 {
        if let Some(_d) = dot {
            proof {
                assert(tok[0] == '.');
                assert(!all_digits(tok)) by {
                    assert(!is_digit_char(tok[0]));
                }
                assert(tok.len() == 1);
                assert(!is_decimal_token(tok));
                lemma_parse_time_none(sv, a as int, b as int);
            }
            return None;
        }
    }

    // Bounds of the whole-number digit run.
    let int_end: usize = match dot {
        Some(d) => d,
        None => b,
    };
    let ghost ipart = sv.subrange(a as int, int_end as int);
    let ghost fpart = match dot {
        Some(d) => sv.subrange(d + 1, b as int),
        None => Seq::<char>::empty(),
    };
    proof {
        assert(all_digits(ipart));
        match dot {
            Some(d) => {
                assert(tok[d - a] == '.');
                assert(forall|j: int|
                    0 <= j < tok.len() && j != d - a ==> is_digit_char(#[trigger] tok[j]));
                assert(is_dot_split(tok, d - a));
                assert(tok.len() > 1);
                lemma_token_value_dot(tok, d - a);
                assert(tok.subrange(0, d - a) =~= ipart);
                assert(tok.subrange(d - a + 1, tok.len() as int) =~= fpart);
                assert(all_digits(fpart));
            },
            None => {
                assert(all_digits(tok));
                assert(is_decimal_token(tok));
                assert(tok =~= ipart);
            },
        }
        lemma_frac_scaled_bounds(fpart);
        assert(token_value(tok) == digits_val(ipart) * 1000 + frac_scaled(fpart));
        lemma_parse_time_some(sv, a as int, b as int);
        lemma_digits_val_nonneg(ipart);
    }

    // Whole part, with overflow detection.
    let mut acc: u64 = 0;
    let mut k: usize = a;
    while k < int_end
        invariant
            a <= k <= int_end <= b <= n,
            n == sv.len(),
            time_str@ == sv,
            ipart == sv.subrange(a as int, int_end as int),
            all_digits(ipart),
            acc as int == digits_val(ipart.subrange(0, k - a)),
            spec_parse_time(sv) == Some(token_value(tok)),
            token_value(tok) == digits_val(ipart) * 1000 + frac_scaled(fpart),
            frac_scaled(fpart) >= 0,
        decreases int_end - k,
    {
        let c = time_str.get_char(k);
        proof {
            assert(ipart[k - a] == c);
            assert(is_digit_char(c));
        }
        let d = ((c as u32) - 48) as u64;
        proof {
            assert(d as int == digit_val(c));
            lemma_digits_val_step(ipart, k - a);
        }
        let step = match acc.checked_mul(10) {
            Some(p) => p.checked_add(d),
            None => None,
        };
        match step {
            Some(v) => {
                acc = v;
            },
            None => {
                proof {
                    assert(digits_val(ipart.subrange(0, k - a + 1)) > u64::MAX);
                    lemma_digits_val_prefix(ipart, k - a + 1);
                    assert(digits_val(ipart) > u64::MAX);
                    assert(token_value(tok) > u64::MAX);
                }
                return None;
            },
        }
        k = k + 1;
    }
    proof {
        assert(ipart.subrange(0, int_end - a) =~= ipart);
        assert(acc as int == digits_val(ipart));
    }

    // Fractional part, truncated to three digits.
    let mut frac: u64 = 0;
    if let Some(d) = dot {
        let mut j: usize = d + 1;
        while j < b && j - d < 4
            invariant
                d < j <= b <= n,
                j <= d + 4,
                n == sv.len(),
                time_str@ == sv,
                fpart == sv.subrange(d + 1, b as int),
                all_digits(fpart),
                frac as int == digits_val(fpart.subrange(0, j - d - 1)),
            decreases b - j,
        {
            let c = time_str.get_char(j);
            proof {
                assert(fpart[j - d - 1] == c);
                assert(is_digit_char(c));
            }
            let dv = ((c as u32) - 48) as u64;
            proof {
                assert(dv as int == digit_val(c));
                lemma_digits_val_step(fpart, j - d - 1);
                let p = fpart.subrange(0, j - d - 1);
                assert(all_digits(p));
                lemma_digits_val_small(p);
            }
            frac = frac * 10 + dv;
            j = j + 1;
        }
        proof {
            if fpart.len() >= 3 {
                assert(j == d + 4);
                assert(frac as int == digits_val(fpart.subrange(0, 3)));
                assert(frac as int == frac_scaled(fpart));
            } else {
                assert(j == b);
                assert(fpart.subrange(0, j - d - 1) =~= fpart);
                lemma_digits_val_small(fpart);
            }
        }
        if b - d - 1 == 2 {
            frac = frac * 10;
        } else if b - d - 1 == 1 {
            frac = frac * 100;
        }
        proof {
            assert(frac as int == frac_scaled(fpart));
        }
    }
    proof {
        assert(frac as int == frac_scaled(fpart));
        assert(frac <= 999);
    }

    // Combine whole and fractional ticks.
    let scaled = match acc.checked_mul(1000) {
        Some(p) => p.checked_add(frac),
        None => None,
    };
    match scaled {
        Some(v) => {
            proof {
                assert(v as int == token_value(tok));
            }
            Some(v)
        },
        None => {
            proof {
                assert(token_value(tok) > u64::MAX);
            }
            None
        },
    }
}

} // verus!
