//! The grammar of 64-bit floating-point literals, as `f64::from_str`
//! documents it: an optional sign, then `inf`, `infinity` or `nan` in any
//! letter case, or a decimal number — digits with at most one dot and at
//! least one digit — with an optional exponent part.

use vstd::prelude::*;

verus! {

/// An ASCII decimal digit.
pub open spec fn is_digit_char(c: char) -> bool {
    let u = c as u32;
    0x30 <= u && u <= 0x39
}

/// An exponent marker.
pub open spec fn is_exp_char(c: char) -> bool {
    c == 'e' || c == 'E'
}

/// A sign.
pub open spec fn is_sign_char(c: char) -> bool {
    c == '+' || c == '-'
}

/// `c` equals the lower-case ASCII letter `lower`, ignoring letter case.
pub open spec fn eq_ignore_ascii_case(c: char, lower: char) -> bool {
    c == lower || (c as u32) + 32 == lower as u32
}

/// `s` spells `word` (a lower-case ASCII word), ignoring letter case.
pub open spec fn matches_ignore_ascii_case(s: Seq<char>, word: Seq<char>) -> bool {
    s.len() == word.len() && forall|i: int|
        0 <= i < s.len() ==> eq_ignore_ascii_case(#[trigger] s[i], word[i])
}

/// `inf`, `infinity` or `nan`, in any letter case.
pub open spec fn is_special_float(s: Seq<char>) -> bool {
    ||| matches_ignore_ascii_case(s, seq!['i', 'n', 'f'])
    ||| matches_ignore_ascii_case(s, seq!['i', 'n', 'f', 'i', 'n', 'i', 't', 'y'])
    ||| matches_ignore_ascii_case(s, seq!['n', 'a', 'n'])
}

/// Digits with at most one dot and at least one digit: the mantissa of a
/// floating-point literal.
pub open spec fn is_mantissa(s: Seq<char>) -> bool {
    &&& s.len() > 0
    &&& (forall|i: int| 0 <= i < s.len() ==> is_digit_char(#[trigger] s[i]) || s[i] == '.')
    &&& (forall|i: int, j: int|
        0 <= i < s.len() && 0 <= j < s.len() && #[trigger] s[i] == '.' && #[trigger] s[j] == '.'
            ==> i == j)
    &&& (exists|i: int| 0 <= i < s.len() && is_digit_char(#[trigger] s[i]))
}

/// `s` with a leading sign, if any, removed.
pub open spec fn strip_sign(s: Seq<char>) -> Seq<char> {
    if s.len() > 0 && is_sign_char(s[0]) {
        s.drop_first()
    } else {
        s
    }
}

/// An optional sign followed by one or more digits: what may follow the
/// exponent marker.
pub open spec fn is_exponent(s: Seq<char>) -> bool {
    let t = strip_sign(s);
    t.len() > 0 && forall|i: int| 0 <= i < t.len() ==> is_digit_char(#[trigger] t[i])
}

/// A mantissa, optionally followed by an exponent marker and an exponent.
pub open spec fn is_decimal_number(s: Seq<char>) -> bool {
    ||| is_mantissa(s)
    ||| exists|i: int|
        0 <= i < s.len() && is_exp_char(#[trigger] s[i]) && is_mantissa(s.subrange(0, i))
            && is_exponent(s.subrange(i + 1, s.len() as int))
}

/// The whole grammar of `f64::from_str`: on exactly these character
/// sequences a 64-bit floating-point parse succeeds.
pub open spec fn parses_as_float(s: Seq<char>) -> bool {
    let t = strip_sign(s);
    is_special_float(t) || is_decimal_number(t)
}

/// Decides `is_digit_char`.
fn digit(c: char) -> (r: bool)
    ensures
        r == is_digit_char(c),
{
    let u = c as u32;
    0x30 <= u && u <= 0x39
}

/// Decides whether `s[from..]` spells `word` (lower-case ASCII), ignoring
/// letter case.
fn matches_word(s: &str, from: usize, word: &str) -> (r: bool)
    requires
        from <= s@.len(),
    ensures
        r == matches_ignore_ascii_case(s@.subrange(from as int, s@.len() as int), word@),
{
    let ghost seg = s@.subrange(from as int, s@.len() as int);
    let n = s.unicode_len();
    let w = word.unicode_len();
    if n - from != w {
        return false;
    }
    let mut i: usize = 0;
    while i < w
        invariant
            0 <= i <= w == word@.len(),
            from + w == n == s@.len(),
            seg == s@.subrange(from as int, s@.len() as int),
            forall|m: int| 0 <= m < i ==> eq_ignore_ascii_case(#[trigger] seg[m], word@[m]),
        decreases w - i,
    {
        let a = s.get_char(from + i);
        let b = word.get_char(i);
        let same = a == b || ((a as u32) as u64) + 32 == ((b as u32) as u64);
        if !same {
            assert(!eq_ignore_ascii_case(seg[i as int], word@[i as int]));
            return false;
        }
        i = i + 1;
    }
    true
}

/// Decides `is_mantissa` on `s[from..to]`.
fn check_mantissa(s: &str, from: usize, to: usize) -> (r: bool)
    requires
        from <= to <= s@.len(),
    ensures
        r == is_mantissa(s@.subrange(from as int, to as int)),
{
    let ghost seg = s@.subrange(from as int, to as int);
    if to == from {
        return false;
    }
    let mut i = from;
    let mut seen_digit = false;
    let mut dot: Option<usize> = None;
    while i < to
        invariant
            from <= i <= to <= s@.len(),
            seg == s@.subrange(from as int, to as int),
            seen_digit == exists|m: int| from <= m < i && is_digit_char(#[trigger] s@[m]),
            match dot {
                None => forall|m: int| from <= m < i ==> #[trigger] s@[m] != '.',
                Some(k) => from <= k < i && s@[k as int] == '.' && forall|m: int|
                    from <= m < i && m != k ==> #[trigger] s@[m] != '.',
            },
            forall|m: int| from <= m < i ==> is_digit_char(#[trigger] s@[m]) || s@[m] == '.',
        decreases to - i,
    {
        let c = s.get_char(i);
        if c == '.' {
            match dot {
                Some(k) => {
                    proof {
                        assert(seg[k - from] == '.');
                        assert(seg[i - from] == '.');
                        assert(!is_mantissa(seg));
                    }
                    return false;
                },
                None => {
                    dot = Some(i);
                },
            }
        } else if digit(c) {
            seen_digit = true;
        } else {
            proof {
                assert(!(is_digit_char(seg[i - from]) || seg[i - from] == '.'));
            }
            return false;
        }
        i = i + 1;
    }
    proof {
        if seen_digit {
            let m = choose|m: int| from <= m < to && is_digit_char(#[trigger] s@[m]);
            assert(is_digit_char(seg[m - from]));
            assert forall|p: int, q: int|
                0 <= p < seg.len() && 0 <= q < seg.len() && #[trigger] seg[p] == '.'
                    && #[trigger] seg[q] == '.' implies p == q by {
                assert(s@[p + from] == '.');
                assert(s@[q + from] == '.');
            }
            assert(is_mantissa(seg));
        } else {
            assert forall|m: int| 0 <= m < seg.len() implies !is_digit_char(seg[m]) by {
                assert(seg[m] == s@[m + from]);
            }
        }
    }
    seen_digit
}

/// Decides `is_exponent` on `s[from..to]`.
fn check_exponent(s: &str, from: usize, to: usize) -> (r: bool)
    requires
        from <= to <= s@.len(),
    ensures
        r == is_exponent(s@.subrange(from as int, to as int)),
{
    let ghost seg = s@.subrange(from as int, to as int);
    let mut start = from;
    if from < to {
        let c = s.get_char(from);
        if c == '+' || c == '-' {
            start = from + 1;
        }
    }
    proof {
        assert(strip_sign(seg) =~= s@.subrange(start as int, to as int));
    }
    let ghost t = strip_sign(seg);
    if start == to {
        return false;
    }
    let mut i = start;
    while i < to
        invariant
            from <= start <= i <= to <= s@.len(),
            t == s@.subrange(start as int, to as int),
            t == strip_sign(s@.subrange(from as int, to as int)),
            start < to,
            forall|m: int| start <= m < i ==> is_digit_char(#[trigger] s@[m]),
        decreases to - i,
    {
        let c = s.get_char(i);
        if !digit(c) {
            assert(!is_digit_char(t[i - start]));
            return false;
        }
        i = i + 1;
    }
    proof {
        assert forall|m: int| 0 <= m < t.len() implies is_digit_char(t[m]) by {
            assert(t[m] == s@[m + start]);
        }
    }
    true
}

/// Decides `is_decimal_number` on `s[from..to]`.
fn check_number(s: &str, from: usize, to: usize) -> (r: bool)
    requires
        from <= to <= s@.len(),
    ensures
        r == is_decimal_number(s@.subrange(from as int, to as int)),
{
    let ghost seg = s@.subrange(from as int, to as int);
    let mut epos: Option<usize> = None;
    let mut i = from;
    while i < to
        invariant
            from <= i <= to <= s@.len(),
            seg == s@.subrange(from as int, to as int),
            match epos {
                None => forall|m: int| from <= m < i ==> !is_exp_char(#[trigger] s@[m]),
                Some(k) => from <= k < i && is_exp_char(s@[k as int]) && forall|m: int|
                    from <= m < k ==> !is_exp_char(#[trigger] s@[m]),
            },
        decreases to - i,
    {
        let c = s.get_char(i);
        if c == 'e' || c == 'E' {
            match epos {
                None => {
                    epos = Some(i);
                },
                Some(_) => {
                },
            }
        }
        i = i + 1;
    }
    match epos {
        None => {
            let r = check_mantissa(s, from, to);
            proof {
                assert forall|m: int| 0 <= m < seg.len() implies !is_exp_char(seg[m]) by {
                    assert(seg[m] == s@[m + from]);
                }
            }
            r
        },
        Some(k) => {
            let m_ok = check_mantissa(s, from, k);
            let e_ok = check_exponent(s, k + 1, to);
            proof {
                let ke = k - from;
                assert(is_exp_char(seg[ke]));
                assert(seg.subrange(0, ke) =~= s@.subrange(from as int, k as int));
                assert(seg.subrange(ke + 1, seg.len() as int) =~= s@.subrange(
                    k + 1,
                    to as int,
                ));
                assert(!is_digit_char(seg[ke]) && seg[ke] != '.');
                assert(!is_mantissa(seg));
                if m_ok && e_ok {
                    assert(is_decimal_number(seg));
                } else {
                    assert forall|p: int|
                        0 <= p < seg.len() && is_exp_char(#[trigger] seg[p]) implies !(
                    is_mantissa(seg.subrange(0, p)) && is_exponent(
                        seg.subrange(p + 1, seg.len() as int),
                    )) by {
                        if p == ke {
                        } else {
                            assert(!is_exp_char(s@[p + from]) || p + from >= k);
                            assert(p > ke);
                            assert(seg.subrange(0, p)[ke] == seg[ke]);
                            assert(!is_mantissa(seg.subrange(0, p)));
                        }
                    }
                    assert(!is_decimal_number(seg));
                }
            }
            m_ok && e_ok
        },
    }
}

/// Whether a floating-point parse of `value` would succeed: exactly the
/// strings that `f64::from_str` accepts, decided against the documented
/// literal grammar.
pub fn is_numeric(value: &str) -> (r: bool)
    ensures
        r == parses_as_float(value@),
{
    let n = value.unicode_len();
    let mut start: usize = 0;
    if n > 0 {
        let c = value.get_char(0);
        if c == '+' || c == '-' {
            start = 1;
        }
    }
    proof {
        assert(strip_sign(value@) =~= value@.subrange(start as int, n as int));
        reveal_strlit("inf");
        reveal_strlit("infinity");
        reveal_strlit("nan");
        assert(("inf")@ =~= seq!['i', 'n', 'f']);
        assert(("infinity")@ =~= seq!['i', 'n', 'f', 'i', 'n', 'i', 't', 'y']);
        assert(("nan")@ =~= seq!['n', 'a', 'n']);
    }
    if matches_word(value, start, "inf") || matches_word(value, start, "infinity")
        || matches_word(value, start, "nan") {
        return true;
    }
    check_number(value, start, n)
}

} // verus!
