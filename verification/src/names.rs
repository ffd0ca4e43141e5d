//! Operation-name normalization.
//!
//! The instrumentation appends a volatile duration annotation to operation
//! names, e.g. `MEMCPY_DtoH[2.464 us]`.  Repeated occurrences of the same
//! logical operation never carry the same annotation, so the bracketed
//! suffix must be stripped before any name comparison.  Only a suffix of
//! the exact shape `[<number> us]` or `[<number> ms]` is volatile: a
//! bracketed tail whose middle is not a decimal number is part of the
//! name and stays.

use vstd::prelude::*;

use crate::time::{is_decimal_token, is_digit_char, is_dot_split};

verus! {

/// True when the last four characters of `s` spell `" us]"` or `" ms]"`.
pub open spec fn ends_with_time_unit(s: Seq<char>) -> bool {
    &&& s.len() >= 4
    &&& s[s.len() - 4] == ' '
    &&& (s[s.len() - 3] == 'u' || s[s.len() - 3] == 'm')
    &&& s[s.len() - 2] == 's'
    &&& s[s.len() - 1] == ']'
}

/// True when `s` contains at least one `'['`.
pub open spec fn has_open_bracket(s: Seq<char>) -> bool {
    exists|i: int| 0 <= i < s.len() && s[i] == '['
}

/// `p` is the position of the last `'['` in `s`.
pub open spec fn is_last_bracket(s: Seq<char>, p: int) -> bool {
    &&& 0 <= p < s.len()
    &&& s[p] == '['
    &&& forall|j: int| p < j < s.len() ==> s[j] != '['
}

/// The name ends with a volatile duration annotation: a `" us]"` or
/// `" ms]"` tail whose characters between the last `'['` and the unit
/// form a decimal number.
pub open spec fn has_time_annotation(s: Seq<char>) -> bool {
    &&& ends_with_time_unit(s)
    &&& exists|p: int|
        is_last_bracket(s, p) && p + 1 <= s.len() - 4 && is_decimal_token(
            #[trigger] s.subrange(p + 1, s.len() - 4),
        )
}

/// The normalized form of an operation name: a volatile duration
/// annotation (`[<number> us]` or `[<number> ms]`, from the last `'['`
/// on) is stripped; any other name is unchanged.
pub open spec fn normalized_name(s: Seq<char>) -> Seq<char> {
    if has_time_annotation(s) {
        s.subrange(0, choose|p: int| is_last_bracket(s, p))
    } else {
        s
    }
}

/// Every string with an `'['` has a last `'['`.
pub proof fn lemma_last_bracket_exists(s: Seq<char>)
    requires
        has_open_bracket(s),
    ensures
        exists|p: int| is_last_bracket(s, p),
    decreases s.len(),
{
    if s[s.len() - 1] == '[' {
        assert(is_last_bracket(s, s.len() - 1));
    } else {
        let t = s.drop_last();
        let i = choose|i: int| 0 <= i < s.len() && s[i] == '[';
        assert(t[i] == '[');
        lemma_last_bracket_exists(t);
        let p = choose|p: int| is_last_bracket(t, p);
        assert forall|j: int| p < j < s.len() implies s[j] != '[' by {
            if j < s.len() - 1 {
                assert(t[j] != '[');
            }
        }
        assert(is_last_bracket(s, p));
    }
}

/// The last `'['` of a string is unique.
pub proof fn lemma_last_bracket_unique(s: Seq<char>, p: int, q: int)
    requires
        is_last_bracket(s, p),
        is_last_bracket(s, q),
    ensures
        p == q,
{
}

/// Checks that the characters of `s` at `from..to` form a decimal
/// number: digits around at most one dot, at least one digit.
fn decimal_range(s: &str, from: usize, to: usize, n: usize) -> (r: bool)
    requires
        from <= to <= n,
        n == s@.len(),
    ensures
        r == is_decimal_token(s@.subrange(from as int, to as int)),
{
    let ghost tok = s@.subrange(from as int, to as int);
    if from == to {
        proof {
            assert(!is_decimal_token(tok));
        }
        return false;
    }
    let mut dot: Option<usize> = None;
    let mut k: usize = from;
    while k < to
        invariant
            from <= k <= to <= n,
            n == s@.len(),
            tok == s@.subrange(from as int, to as int),
            match dot {
                Some(d) => from <= d < k && s@[d as int] == '.' && forall|j: int|
                    from <= j < k && j != d ==> is_digit_char(#[trigger] s@[j]),
                None => forall|j: int| from <= j < k ==> is_digit_char(#[trigger] s@[j]),
            },
        decreases to - k,
    {
        let c = s.get_char(k);
        if c == '.' {
            match dot {
                Some(d0) => {
                    proof {
                        assert(tok[d0 - from] == '.');
                        assert(tok[k - from] == '.');
                        assert(!crate::time::all_digits(tok)) by {
                            assert(!is_digit_char(tok[k - from]));
                        }
                        assert forall|d: int| !is_dot_split(tok, d) by {
                            if is_dot_split(tok, d) {
                                if d != d0 - from {
                                    assert(is_digit_char(tok[d0 - from]));
                                } else {
                                    assert(is_digit_char(tok[k - from]));
                                }
                                assert(false);
                            }
                        }
                        assert(!is_decimal_token(tok));
                    }
                    return false;
                },
                None => {
                    dot = Some(k);
                },
            }
        } else {
            let u = c as u32;
            if u < 48 || u > 57 {
                proof {
                    assert(tok[k - from] == c);
                    assert(!is_digit_char(c));
                    assert(!crate::time::all_digits(tok));
                    assert forall|d: int| !is_dot_split(tok, d) by {
                        if is_dot_split(tok, d) {
                            if d == k - from {
                                assert(tok[d] == '.');
                            } else {
                                assert(is_digit_char(tok[k - from]));
                            }
                            assert(false);
                        }
                    }
                    assert(!is_decimal_token(tok));
                }
                return false;
            }
        }
        k = k + 1;
    }
    if to - from == 1 {
        if let Some(_d) = dot {
            proof {
                assert(tok[0] == '.');
                assert(!crate::time::all_digits(tok)) by {
                    assert(!is_digit_char(tok[0]));
                }
                assert(tok.len() == 1);
                assert(!is_decimal_token(tok));
            }
            return false;
        }
    }
    proof {
        match dot {
            Some(d) => {
                assert(tok[d - from] == '.');
                assert(forall|j: int|
                    0 <= j < tok.len() && j != d - from ==> is_digit_char(#[trigger] tok[j]));
                assert(is_dot_split(tok, d - from));
                assert(tok.len() > 1);
                assert(is_decimal_token(tok));
            },
            None => {
                assert(crate::time::all_digits(tok));
                assert(is_decimal_token(tok));
            },
        }
    }
    true
}

/// Strips a volatile `[<number> us]` / `[<number> ms]` suffix from an
/// operation name; names without such a suffix are returned unchanged.
pub fn normalize_op_name(name: &str) -> (r: &str)
    ensures
        r@ == normalized_name(name@),
{
    let n = name.unicode_len();
    if n < 4 {
        return name;
    }
    let c_space = name.get_char(n - 4);
    let c_unit = name.get_char(n - 3);
    let c_s = name.get_char(n - 2);
    let c_close = name.get_char(n - 1);
    let suffix_ok = c_space == ' ' && (c_unit == 'u' || c_unit == 'm') && c_s == 's'
        && c_close == ']';
    if !suffix_ok {
        return name;
    }
    let mut i = n;
    while i > 0
        invariant
            i <= n,
            n == name@.len(),
            ends_with_time_unit(name@),
            forall|j: int| i <= j < n ==> name@[j] != '[',
        decreases i,
    {
        i = i - 1;
        if name.get_char(i) == '[' {
            proof {
                assert(ends_with_time_unit(name@));
                assert(is_last_bracket(name@, i as int));
                assert(i < n - 4) by {
                    assert(name@[i as int] == '[');
                }
            }
            let numeric = decimal_range(name, i + 1, n - 4, n);
            if numeric {
                proof {
                    assert(has_time_annotation(name@));
                    let p = choose|p: int| is_last_bracket(name@, p);
                    lemma_last_bracket_unique(name@, p, i as int);
                    assert(normalized_name(name@) == name@.subrange(0, i as int));
                }
                return name.substring_char(0, i);
            } else {
                proof {
                    assert(!has_time_annotation(name@)) by {
                        if has_time_annotation(name@) {
                            let p = choose|p: int|
                                is_last_bracket(name@, p) && p + 1 <= name@.len() - 4
                                    && is_decimal_token(
                                    #[trigger] name@.subrange(p + 1, name@.len() - 4),
                                );
                            lemma_last_bracket_unique(name@, p, i as int);
                        }
                    }
                }
                return name;
            }
        }
    }
    proof {
        assert(!has_open_bracket(name@));
        assert(!has_time_annotation(name@)) by {
            if has_time_annotation(name@) {
                let p = choose|p: int|
                    is_last_bracket(name@, p) && p + 1 <= name@.len() - 4 && is_decimal_token(
                        #[trigger] name@.subrange(p + 1, name@.len() - 4),
                    );
                assert(name@[p] == '[');
            }
        }
    }
    name
}

/// Normalizing a name that carries no volatile time annotation leaves it
/// unchanged.
pub proof fn lemma_normalize_no_suffix(s: Seq<char>)
    requires
        !has_time_annotation(s),
    ensures
        normalized_name(s) == s,
{
}

/// Normalization is idempotent: stripping once more has no further
/// effect.  The hypothesis excludes names whose stripped form itself
/// still ends in a volatile annotation (such names carry two stacked
/// annotations).
pub proof fn lemma_normalize_idempotent(s: Seq<char>)
    requires
        !has_time_annotation(normalized_name(s)),
    ensures
        normalized_name(normalized_name(s)) == normalized_name(s),
{
    lemma_normalize_no_suffix(normalized_name(s));
}

/// A name with a single `'['` normalizes to a bracket-free name, so a
/// second normalization can have no further effect.
pub proof fn lemma_normalize_idempotent_single_bracket(s: Seq<char>)
    requires
        forall|i: int, j: int|
            0 <= i < s.len() && 0 <= j < s.len() && s[i] == '[' && s[j] == '[' ==> i == j,
    ensures
        normalized_name(normalized_name(s)) == normalized_name(s),
{
    if has_time_annotation(s) {
        let p = choose|p: int| is_last_bracket(s, p);
        let q = choose|q: int|
            is_last_bracket(s, q) && q + 1 <= s.len() - 4 && is_decimal_token(
                #[trigger] s.subrange(q + 1, s.len() - 4),
            );
        lemma_last_bracket_unique(s, p, q);
        let r = s.subrange(0, p);
        assert(forall|i: int| 0 <= i < r.len() ==> r[i] == s[i]);
        assert(!has_open_bracket(r));
        assert(normalized_name(s) == r);
        assert(!has_time_annotation(r)) by {
            if has_time_annotation(r) {
                let x = choose|x: int|
                    is_last_bracket(r, x) && x + 1 <= r.len() - 4 && is_decimal_token(
                        #[trigger] r.subrange(x + 1, r.len() - 4),
                    );
                assert(r[x] == '[');
            }
        }
        lemma_normalize_no_suffix(r);
    } else {
        lemma_normalize_no_suffix(s);
    }
}

} // verus!
