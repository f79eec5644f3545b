//! The decimal notation for floating-point numbers: an optional sign, then
//! `inf`, `infinity`, `nan` in any case, or digits with an optional point and
//! an optional exponent.

use crate::text::{chars_of, lemma_run_length_is, run_length, text_between};
use vstd::prelude::*;

verus! {

/// The ten ASCII digits.
pub open spec fn is_digit(c: char) -> bool {
    '0' <= c <= '9'
}

/// The predicate "is a decimal digit".
pub open spec fn digit() -> spec_fn(char) -> bool {
    |c: char| is_digit(c)
}

/// An ASCII capital as its small letter; any other character as itself.
pub open spec fn lower(c: char) -> char {
    if 'A' <= c <= 'Z' {
        ((c as u8) + 32) as char
    } else {
        c
    }
}

/// Whether `a` and `b` differ at most in the case of ASCII letters.
pub open spec fn same_ignoring_case(a: Seq<char>, b: Seq<char>) -> bool {
    a.len() == b.len() && forall|i: int| 0 <= i < a.len() ==> lower(a[i]) == lower(b[i])
}

/// `s` without a sign at its front.
pub open spec fn unsigned(s: Seq<char>) -> Seq<char> {
    if s.len() > 0 && (s[0] == '+' || s[0] == '-') {
        s.skip(1)
    } else {
        s
    }
}

/// One or more digits and nothing else.
pub open spec fn is_digits(s: Seq<char>) -> bool {
    s.len() > 0 && run_length(s, digit()) == s.len()
}

/// `e` or `E`, an optional sign, and one or more digits.
pub open spec fn is_exponent(s: Seq<char>) -> bool {
    s.len() > 0 && (s[0] == 'e' || s[0] == 'E') && is_digits(unsigned(s.skip(1)))
}

/// Digits with an optional point among them, at least one digit in all, and
/// an optional exponent.
pub open spec fn is_decimal(s: Seq<char>) -> bool {
    let whole = run_length(s, digit());
    let rest = s.skip(whole);
    let pointed = rest.len() > 0 && rest[0] == '.';
    let fraction = if pointed {
        run_length(rest.skip(1), digit())
    } else {
        0
    };
    let tail = if pointed {
        rest.skip(1 + fraction)
    } else {
        rest
    };
    whole + fraction > 0 && (tail.len() == 0 || is_exponent(tail))
}

/// Whether `s` is written as a floating-point number.
pub open spec fn is_float_literal(s: Seq<char>) -> bool {
    let body = unsigned(s);
    is_decimal(body) || same_ignoring_case(body, "inf"@) || same_ignoring_case(body, "infinity"@)
        || same_ignoring_case(body, "nan"@)
}

/// An ASCII capital as its small letter; any other character as itself.
pub fn to_lower(c: char) -> (r: char)
    ensures
        r == lower(c),
{
    if 'A' <= c && c <= 'Z' {
        ((c as u8) + 32) as char
    } else {
        c
    }
}

/// Whether `a` and `b` differ at most in the case of ASCII letters.
pub fn equals_ignoring_case(a: &Vec<char>, b: &Vec<char>) -> (r: bool)
    ensures
        r == same_ignoring_case(a@, b@),
{
    if a.len() != b.len() {
        return false;
    }
    let mut i: usize = 0;
    while i < a.len()
        invariant
            a.len() == b.len(),
            i <= a.len(),
            forall|j: int| 0 <= j < i ==> lower(a@[j]) == lower(b@[j]),
        decreases a.len() - i,
    {
        if to_lower(a[i]) != to_lower(b[i]) {
            return false;
        }
        i += 1;
    }
    true
}

/// The position after the digits that start at `from`.
fn skip_digits(chars: &Vec<char>, from: usize) -> (to: usize)
    requires
        from <= chars.len(),
    ensures
        from <= to <= chars.len(),
        to - from == run_length(chars@.skip(from as int), digit()),
{
    let mut i: usize = from;
    while i < chars.len() && '0' <= chars[i] && chars[i] <= '9'
        invariant
            from <= i <= chars.len(),
            forall|j: int| from <= j < i ==> is_digit(#[trigger] chars@[j]),
        decreases chars.len() - i,
    {
        i += 1;
    }
    proof {
        let rest = chars@.skip(from as int);
        assert forall|j: int| 0 <= j < i - from implies digit()(#[trigger] rest[j]) by {
            assert(rest[j] == chars@[from + j]);
        }
        lemma_run_length_is(rest, digit(), i - from);
    }
    i
}

/// Whether an exponent starts at `from` and runs to the end.
fn exponent_at(chars: &Vec<char>, from: usize) -> (r: bool)
    requires
        from <= chars.len(),
    ensures
        r == is_exponent(chars@.skip(from as int)),
{
    let m = chars.len();
    if from == m {
        return false;
    }
    if chars[from] != 'e' && chars[from] != 'E' {
        return false;
    }
    let ghost tail = chars@.skip(from as int);
    let after_e = from + 1;
    let digits_start: usize = if after_e < m && (chars[after_e] == '+' || chars[after_e] == '-') {
        after_e + 1
    } else {
        after_e
    };
    assert(tail.skip(1) == chars@.skip(after_e as int));
    assert(unsigned(tail.skip(1)) == chars@.skip(digits_start as int));
    let digits_end = skip_digits(chars, digits_start);
    digits_start < m && digits_end == m
}

/// Whether `chars` are digits with an optional point and an optional exponent.
fn decimal(chars: &Vec<char>) -> (r: bool)
    ensures
        r == is_decimal(chars@),
{
    let m = chars.len();
    let whole_end = skip_digits(chars, 0);
    assert(chars@.skip(0) == chars@);
    let pointed = whole_end < m && chars[whole_end] == '.';
    let ghost rest = chars@.skip(whole_end as int);
    if pointed {
        let fraction_start = whole_end + 1;
        let tail_start = skip_digits(chars, fraction_start);
        assert(rest.skip(1) == chars@.skip(fraction_start as int));
        assert(rest.skip(1 + (tail_start - fraction_start)) == chars@.skip(tail_start as int));
        if whole_end + (tail_start - fraction_start) == 0 {
            return false;
        }
        tail_start == m || exponent_at(chars, tail_start)
    } else {
        if whole_end == 0 {
            return false;
        }
        whole_end == m || exponent_at(chars, whole_end)
    }
}

/// Whether `s` is written as a floating-point number.
pub fn is_float(s: &str) -> (r: bool)
    ensures
        r == is_float_literal(s@),
{
    let all = chars_of(s);
    let n = all.len();
    let start: usize = if n > 0 && (all[0] == '+' || all[0] == '-') {
        1
    } else {
        0
    };
    assert(unsigned(s@) == all@.subrange(start as int, n as int));
    let body = text_between(&all, start, n);
    let chars = chars_of(body.as_str());
    let inf = chars_of("inf");
    let infinity = chars_of("infinity");
    let nan = chars_of("nan");
    decimal(&chars) || equals_ignoring_case(&chars, &inf) || equals_ignoring_case(
        &chars,
        &infinity,
    ) || equals_ignoring_case(&chars, &nan)
}

} // verus!
