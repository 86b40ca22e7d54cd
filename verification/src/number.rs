//! Numeric tokens: decimal integers and the grammar of floating-point
//! numbers.

use crate::chars::{chars_of, is_digit, is_letter, lemma_run_end, run_end, scan, Class};
use vstd::prelude::*;

verus! {

/// The value of a decimal digit.
pub open spec fn digit_of(c: char) -> nat {
    (c as int - 48) as nat
}

/// The decimal digit of a value below ten.
pub open spec fn digit_char(d: nat) -> char {
    ((d + 48) as u8) as char
}

pub open spec fn all_digits(s: Seq<char>) -> bool {
    forall|i: int| 0 <= i < s.len() ==> is_digit(#[trigger] s[i])
}

/// The number that a sequence of decimal digits denotes.
pub open spec fn decimal(s: Seq<char>) -> nat
    decreases s.len(),
{
    if s.len() == 0 {
        0
    } else {
        decimal(s.drop_last()) * 10 + digit_of(s.last())
    }
}

/// The decimal digits of a number, without leading zeros.
pub open spec fn digits_of(n: nat) -> Seq<char>
    decreases n,
{
    if n < 10 {
        seq![digit_char(n)]
    } else {
        digits_of(n / 10).push(digit_char(n % 10))
    }
}

/// Whether a token begins with a sign.
pub open spec fn signed(t: Seq<char>) -> bool {
    t.len() > 0 && (t[0] == '-' || t[0] == '+')
}

/// The integer that a token denotes: an optional sign, then decimal digits,
/// with a value that fits in 64 bits.
pub open spec fn int_of(t: Seq<char>) -> Option<i64> {
    let body = if signed(t) {
        t.subrange(1, t.len() as int)
    } else {
        t
    };
    if body.len() > 0 && all_digits(body) {
        let v = if t[0] == '-' {
            -(decimal(body) as int)
        } else {
            decimal(body) as int
        };
        if i64::MIN <= v <= i64::MAX {
            Some(v as i64)
        } else {
            None
        }
    } else {
        None
    }
}

/// The token that denotes an integer: its decimal digits, after a `-` if it
/// is negative.
pub open spec fn int_text(i: i64) -> Seq<char> {
    if i < 0 {
        seq!['-'] + digits_of((-i) as nat)
    } else {
        digits_of(i as nat)
    }
}

/// Whether `c` is the character `l` or, where `l` is a lower-case ASCII
/// letter, its upper-case form.
pub open spec fn is_letter_of(c: char, l: char) -> bool {
    c == l || ('A' <= c <= 'Z' && 'a' <= l <= 'z' && c as int + 32 == l as int)
}

/// Whether the text from `p` on spells the lower-case word `w`, in any mix of
/// cases.
pub open spec fn spells(t: Seq<char>, p: int, w: Seq<char>) -> bool {
    &&& t.len() - p == w.len()
    &&& forall|i: int| 0 <= i < w.len() ==> is_letter_of(#[trigger] t[p + i], w[i])
}

/// Whether the text from `p` on is an exponent: `e` or `E`, an optional
/// sign, and at least one digit.
pub open spec fn is_exponent(t: Seq<char>, p: int) -> bool {
    let d = if p + 1 < t.len() && (t[p + 1] == '-' || t[p + 1] == '+') {
        p + 2
    } else {
        p + 1
    };
    &&& p < t.len()
    &&& (t[p] == 'e' || t[p] == 'E')
    &&& d < t.len()
    &&& run_end(Class::Digit, t, d) == t.len()
}

/// Whether the text from `p` on is a decimal number: digits with at most one
/// point among them and at least one digit, then an optional exponent.
pub open spec fn is_decimal(t: Seq<char>, p: int) -> bool {
    let whole = run_end(Class::Digit, t, p);
    let pointed = whole < t.len() && t[whole] == '.';
    let mantissa = if pointed {
        run_end(Class::Digit, t, whole + 1)
    } else {
        whole
    };
    let digits = if pointed {
        mantissa - p - 1
    } else {
        mantissa - p
    };
    &&& digits > 0
    &&& (mantissa == t.len() || is_exponent(t, mantissa))
}

/// Whether a token is a floating-point number: an optional sign, then `inf`,
/// `infinity` or `nan` in any mix of cases, or a decimal number.
pub open spec fn is_float(t: Seq<char>) -> bool {
    let p: int = if signed(t) {
        1
    } else {
        0
    };
    spells(t, p, "inf"@) || spells(t, p, "infinity"@) || spells(t, p, "nan"@) || is_decimal(t, p)
}

/// Appending a digit to a sequence of digits multiplies by ten and adds.
pub proof fn lemma_decimal_push(s: Seq<char>, c: char)
    ensures
        decimal(s.push(c)) == decimal(s) * 10 + digit_of(c),
{
    assert(s.push(c).drop_last() =~= s);
}

/// The integer that the token `t` denotes, if it denotes one.
pub fn parse_int(t: &Vec<char>) -> (out: Option<i64>)
    ensures
        out == int_of(t@),
{
    let n = t.len();
    if n == 0 {
        return None;
    }
    let negative = t[0] == '-';
    let start: usize = if t[0] == '-' || t[0] == '+' {
        1
    } else {
        0
    };
    let ghost body = t@.subrange(start as int, n as int);
    if start == n {
        return None;
    }
    let digits_end = scan(Class::Digit, t, start);
    proof {
        crate::chars::lemma_run_end(Class::Digit, t@, start as int);
        if digits_end == n {
            assert forall|i: int| 0 <= i < body.len() implies is_digit(#[trigger] body[i]) by {
                assert(body[i] == t@[start + i]);
            }
        } else {
            assert(body[digits_end - start] == t@[digits_end as int]);
        }
    }
    if digits_end != n {
        return None;
    }
    let limit: u64 = 9223372036854775808;
    let mut acc: u64 = 0;
    let mut i: usize = start;
    while i < n
        invariant
            start <= i <= n == t.len(),
            start < n,
            start == (if signed(t@) { 1int } else { 0int }),
            negative == (t@[0] == '-'),
            body == t@.subrange(start as int, n as int),
            all_digits(body),
            acc == decimal(body.take(i - start)),
            acc <= limit,
            limit == 9223372036854775808,
        decreases n - i,
    {
        let c = t[i];
        proof {
            assert(body[i - start] == c);
            assert(is_digit(c));
            assert(body.take(i - start).push(c) =~= body.take(i - start + 1));
            lemma_decimal_push(body.take(i - start), c);
        }
        let d: u64 = (c as u32 - 48) as u64;
        if acc > (limit - d) / 10 {
            proof {
                lemma_decimal_grows(body, i - start + 1);
                assert(decimal(body.take(i - start + 1)) == acc * 10 + d);
                assert(decimal(body) > limit);
                assert(body =~= if signed(t@) { t@.subrange(1, t@.len() as int) } else { t@ });
            }
            return None;
        }
        acc = acc * 10 + d;
        i += 1;
    }
    proof {
        assert(body.take(n - start) =~= body);
        assert(body =~= if signed(t@) { t@.subrange(1, t@.len() as int) } else { t@ });
    }
    if negative {
        if acc == limit {
            Some(i64::MIN)
        } else {
            Some(-(acc as i64))
        }
    } else if acc == limit {
        None
    } else {
        Some(acc as i64)
    }
}

/// A sequence of digits denotes at least what each of its beginnings denotes.
pub proof fn lemma_decimal_grows(s: Seq<char>, k: int)
    requires
        all_digits(s),
        0 <= k <= s.len(),
    ensures
        decimal(s.take(k)) <= decimal(s),
    decreases s.len() - k,
{
    if k < s.len() {
        lemma_decimal_grows(s, k + 1);
        assert(s.take(k + 1).drop_last() =~= s.take(k));
    } else {
        assert(s.take(k) =~= s);
    }
}

/// Appends the decimal digits of `n` to `out`.
fn push_digits(out: &mut String, n: u64)
    ensures
        final(out)@ == old(out)@ + digits_of(n as nat),
    decreases n,
{
    if n >= 10 {
        push_digits(out, n / 10);
    }
    let d: u8 = (n % 10) as u8;
    out.push((d + 48) as char);
    proof {
        if n >= 10 {
            assert(final(out)@ =~= old(out)@ + digits_of(n as nat));
        } else {
            assert(final(out)@ =~= old(out)@ + digits_of(n as nat));
        }
    }
}

/// The token that denotes the integer `i`.
pub fn int_to_text(i: i64) -> (out: String)
    ensures
        out@ == int_text(i),
{
    let mut out = String::new();
    if i < 0 {
        out.push('-');
        let magnitude: u64 = (-(i + 1)) as u64 + 1;
        push_digits(&mut out, magnitude);
        proof {
            assert(out@ =~= seq!['-'] + digits_of((-i) as nat));
        }
    } else {
        push_digits(&mut out, i as u64);
        proof {
            assert(out@ =~= digits_of(i as nat));
        }
    }
    out
}

/// Whether the token from `p` on spells the lower-case word `word`, in any
/// mix of cases.
pub fn spells_word(t: &Vec<char>, p: usize, word: &str) -> (b: bool)
    requires
        p <= t.len(),
    ensures
        b == spells(t@, p as int, word@),
{
    let w = chars_of(word);
    if t.len() - p != w.len() {
        return false;
    }
    let mut i: usize = 0;
    while i < w.len()
        invariant
            i <= w.len(),
            w@ == word@,
            p <= t.len(),
            t.len() - p == w.len(),
            forall|j: int| 0 <= j < i ==> is_letter_of(#[trigger] t@[p + j], w@[j]),
        decreases w.len() - i,
    {
        let c = t[p + i];
        let l = w[i];
        if !(c == l || ('A' <= c && c <= 'Z' && 'a' <= l && l <= 'z' && c as u32 + 32 == l as u32)) {
            proof {
                assert(!is_letter_of(t@[p + i], w@[i as int]));
            }
            return false;
        }
        i += 1;
    }
    true
}

/// Whether the token from `p` on is an exponent.
fn exponent_at(t: &Vec<char>, p: usize) -> (b: bool)
    requires
        p <= t.len(),
    ensures
        b == is_exponent(t@, p as int),
{
    let n = t.len();
    if p >= n || !(t[p] == 'e' || t[p] == 'E') {
        return false;
    }
    let d: usize = if p + 1 < n && (t[p + 1] == '-' || t[p + 1] == '+') {
        p + 2
    } else {
        p + 1
    };
    if d >= n {
        return false;
    }
    scan(Class::Digit, t, d) == n
}

/// Whether the token from `p` on is a decimal number.
fn decimal_at(t: &Vec<char>, p: usize) -> (b: bool)
    requires
        p <= t.len(),
    ensures
        b == is_decimal(t@, p as int),
{
    let n = t.len();
    let whole = scan(Class::Digit, t, p);
    let pointed = whole < n && t[whole] == '.';
    let mantissa = if pointed {
        scan(Class::Digit, t, whole + 1)
    } else {
        whole
    };
    let digits = if pointed {
        mantissa - p - 1
    } else {
        mantissa - p
    };
    digits > 0 && (mantissa == n || exponent_at(t, mantissa))
}

/// Whether the token `t` is a floating-point number.
pub fn is_float_token(t: &Vec<char>) -> (b: bool)
    ensures
        b == is_float(t@),
{
    let p: usize = if t.len() > 0 && (t[0] == '-' || t[0] == '+') {
        1
    } else {
        0
    };
    spells_word(t, p, "inf") || spells_word(t, p, "infinity") || spells_word(t, p, "nan")
        || decimal_at(t, p)
}

/// The digits of a number are digits, at least one, and denote the number.
pub proof fn lemma_digits_of(n: nat)
    ensures
        digits_of(n).len() > 0,
        all_digits(digits_of(n)),
        decimal(digits_of(n)) == n,
    decreases n,
{
    if n < 10 {
        let s = digits_of(n);
        assert(s.drop_last() =~= Seq::<char>::empty());
        assert(decimal(s.drop_last()) == 0);
        assert(s.last() == digit_char(n));
    } else {
        lemma_digits_of(n / 10);
        lemma_decimal_push(digits_of(n / 10), digit_char(n % 10));
    }
}

/// Whether a character may stand in the token of an integer or of a
/// floating-point number: a digit, a sign, a point or an ASCII letter.
pub open spec fn is_numeric_char(c: char) -> bool {
    is_digit(c) || c == '-' || c == '+' || c == '.' || is_letter(c)
}

/// The token of an integer is not empty, holds digits after an optional
/// minus sign, and denotes the integer.
pub proof fn lemma_int_text(i: i64)
    ensures
        int_text(i).len() > 0,
        forall|k: int| 0 <= k < int_text(i).len() ==> is_numeric_char(#[trigger] int_text(i)[k]),
        int_of(int_text(i)) == Some(i),
{
    let t = int_text(i);
    if i < 0 {
        let body = digits_of((-i) as nat);
        lemma_digits_of((-i) as nat);
        assert(t.subrange(1, t.len() as int) =~= body);
        assert forall|k: int| 0 <= k < t.len() implies is_numeric_char(#[trigger] t[k]) by {
            if k > 0 {
                assert(t[k] == body[k - 1]);
            }
        }
    } else {
        lemma_digits_of(i as nat);
        assert(is_digit(t[0]));
    }
}

/// A token that denotes an integer begins with a sign or a digit.
pub proof fn lemma_int_of_begins(t: Seq<char>)
    requires
        int_of(t) is Some,
    ensures
        t.len() > 0,
        is_digit(t[0]) || t[0] == '-' || t[0] == '+',
{
    if !signed(t) {
        assert(is_digit(t[0]));
    }
}

/// The token of a floating-point number is not empty and holds digits,
/// signs, points and ASCII letters only.
pub proof fn lemma_float_chars(t: Seq<char>)
    requires
        is_float(t),
    ensures
        t.len() > 0,
        forall|k: int| 0 <= k < t.len() ==> is_numeric_char(#[trigger] t[k]),
{
    reveal_strlit("inf");
    reveal_strlit("infinity");
    reveal_strlit("nan");
    let p: int = if signed(t) {
        1
    } else {
        0
    };
    if spells(t, p, "inf"@) || spells(t, p, "infinity"@) || spells(t, p, "nan"@) {
        let w = if spells(t, p, "inf"@) {
            "inf"@
        } else if spells(t, p, "infinity"@) {
            "infinity"@
        } else {
            "nan"@
        };
        assert forall|k: int| 0 <= k < t.len() implies is_numeric_char(#[trigger] t[k]) by {
            if k >= p {
                assert(is_letter_of(t[p + (k - p)], w[k - p]));
                assert(is_letter(w[k - p]));
            }
        }
    } else {
        let whole = run_end(Class::Digit, t, p);
        lemma_run_end(Class::Digit, t, p);
        let pointed = whole < t.len() && t[whole] == '.';
        let mantissa = if pointed {
            run_end(Class::Digit, t, whole + 1)
        } else {
            whole
        };
        if pointed {
            lemma_run_end(Class::Digit, t, whole + 1);
        }
        if mantissa < t.len() {
            let d = if mantissa + 1 < t.len() && (t[mantissa + 1] == '-' || t[mantissa + 1]
                == '+') {
                mantissa + 2
            } else {
                mantissa + 1
            };
            lemma_run_end(Class::Digit, t, d);
        }
        assert forall|k: int| 0 <= k < t.len() implies is_numeric_char(#[trigger] t[k]) by {
            if k < p {
            } else if k < whole {
                assert(crate::chars::in_class(Class::Digit, t[k]));
            } else if k < mantissa {
                if k > whole {
                    assert(crate::chars::in_class(Class::Digit, t[k]));
                }
            } else {
                let d = if mantissa + 1 < t.len() && (t[mantissa + 1] == '-' || t[mantissa + 1]
                    == '+') {
                    mantissa + 2
                } else {
                    mantissa + 1
                };
                if k >= d {
                    assert(crate::chars::in_class(Class::Digit, t[k]));
                }
            }
        }
    }
}

} // verus!
