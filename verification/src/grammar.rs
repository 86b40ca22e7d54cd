//! The grammar of preference documents, as functions from a text and a
//! position in it to what stands there.
//!
//! Positions count characters. Whitespace is space, tab, carriage return and
//! line feed; it may stand before and after every token and means nothing
//! outside quoted strings.

use crate::chars::{run_end, Class};
use crate::errors::{Errors, Parsed, Rule};
use crate::escape::unescape;
use crate::number::{int_of, is_float};
use crate::types::{collected, AgprefView, NamedListView, ValueView};
use vstd::prelude::*;

verus! {

/// How deep collections may be nested inside the value of a document.
pub const MAX_DEPTH: usize = 128;

/// The position of the first character from `p` on that is no whitespace.
pub open spec fn skip_spaces(s: Seq<char>, p: int) -> int {
    run_end(Class::Space, s, p)
}

/// The character `c` with optional whitespace on both sides.
pub open spec fn mark(s: Seq<char>, p: int, c: char, rule: Rule) -> Parsed<()> {
    let q = skip_spaces(s, p);
    if 0 <= q < s.len() && s[q] == c {
        Parsed::Hit((), skip_spaces(s, q + 1))
    } else {
        Parsed::Miss(rule, q)
    }
}

/// An opening brace with optional whitespace on both sides.
pub open spec fn opening(s: Seq<char>, p: int) -> Parsed<()> {
    mark(s, p, '{', Rule::Open)
}

/// A closing brace with optional whitespace on both sides.
pub open spec fn closing(s: Seq<char>, p: int) -> Parsed<()> {
    mark(s, p, '}', Rule::Close)
}

/// A comma with optional whitespace on both sides.
pub open spec fn separator(s: Seq<char>, p: int) -> Parsed<()> {
    mark(s, p, ',', Rule::Comma)
}

/// An equal sign with optional whitespace on both sides.
pub open spec fn equal_sign(s: Seq<char>, p: int) -> Parsed<()> {
    mark(s, p, '=', Rule::Equals)
}

/// A key: optional whitespace, then the longest run of characters other than
/// whitespace and `=`, which must not be empty, then optional whitespace.
pub open spec fn key(s: Seq<char>, p: int) -> Parsed<Seq<char>> {
    let q = skip_spaces(s, p);
    let e = run_end(Class::Key, s, q);
    if e > q {
        Parsed::Hit(s.subrange(q, e), skip_spaces(s, e))
    } else {
        Parsed::Miss(Rule::Key, q)
    }
}

/// A bare token: the longest run of characters other than `,`, space, `}` and
/// line feed, which must not be empty.
pub open spec fn token(s: Seq<char>, p: int) -> Parsed<Seq<char>> {
    let e = run_end(Class::Token, s, p);
    if e > p {
        Parsed::Hit(s.subrange(p, e), e)
    } else {
        Parsed::Miss(Rule::Value, p)
    }
}

/// A quoted string: optional whitespace, a double quote, the escaped text, a
/// double quote, optional whitespace.
pub open spec fn string(s: Seq<char>, p: int) -> Parsed<Seq<char>> {
    let q = skip_spaces(s, p);
    if 0 <= q < s.len() && s[q] == '"' {
        match unescape(s, q + 1) {
            Parsed::Miss(rule, at) => Parsed::Miss(rule, at),
            Parsed::Hit(text, e) => if 0 <= e < s.len() && s[e] == '"' {
                Parsed::Hit(text, skip_spaces(s, e + 1))
            } else {
                Parsed::Miss(Rule::Quote, e)
            },
        }
    } else {
        Parsed::Miss(Rule::Quote, q)
    }
}

/// An integer: a bare token between optional whitespace that denotes a
/// 64-bit integer.
pub open spec fn integer(s: Seq<char>, p: int) -> Parsed<i64> {
    let q = skip_spaces(s, p);
    match token(s, q) {
        Parsed::Hit(t, e) => match int_of(t) {
            Some(i) => Parsed::Hit(i, skip_spaces(s, e)),
            None => Parsed::Miss(Rule::Value, q),
        },
        Parsed::Miss(_, _) => Parsed::Miss(Rule::Value, q),
    }
}

/// A floating-point number: a bare token between optional whitespace that
/// fits the grammar of floating-point numbers.
pub open spec fn float(s: Seq<char>, p: int) -> Parsed<Seq<char>> {
    let q = skip_spaces(s, p);
    match token(s, q) {
        Parsed::Hit(t, e) => if is_float(t) {
            Parsed::Hit(t, skip_spaces(s, e))
        } else {
            Parsed::Miss(Rule::Value, q)
        },
        Parsed::Miss(_, _) => Parsed::Miss(Rule::Value, q),
    }
}

/// A boolean: the longest run of ASCII letters and digits, between optional
/// whitespace, which must be `true` or `false`.
pub open spec fn boolean(s: Seq<char>, p: int) -> Parsed<bool> {
    let q = skip_spaces(s, p);
    let e = run_end(Class::Alnum, s, q);
    let word = s.subrange(q, e);
    if e > q && word == "true"@ {
        Parsed::Hit(true, skip_spaces(s, e))
    } else if e > q && word == "false"@ {
        Parsed::Hit(false, skip_spaces(s, e))
    } else {
        Parsed::Miss(Rule::Value, q)
    }
}

/// The unit value: an opening and a closing brace with nothing but optional
/// whitespace between them.
pub open spec fn unit(s: Seq<char>, p: int) -> Parsed<()> {
    match opening(s, p) {
        Parsed::Hit(_, q) => closing(s, q),
        Parsed::Miss(rule, at) => Parsed::Miss(rule, at),
    }
}

/// The first of two alternatives that matches. Where neither does, the
/// failure that came further in the text, and the second where both came
/// equally far. A failure of the rule `Depth` ends the choice.
pub open spec fn or_else<T>(a: Parsed<T>, b: Parsed<T>) -> Parsed<T> {
    match a {
        Parsed::Hit(_, _) => a,
        Parsed::Miss(rule_a, at_a) => if rule_a == Rule::Depth {
            a
        } else {
            match b {
                Parsed::Hit(_, _) => b,
                Parsed::Miss(rule_b, at_b) => if rule_b == Rule::Depth || at_b >= at_a {
                    b
                } else {
                    a
                },
            }
        },
    }
}

/// The same parse, with its value turned into a value of the tree.
pub open spec fn wrap<T>(p: Parsed<T>, f: spec_fn(T) -> ValueView) -> Parsed<ValueView> {
    match p {
        Parsed::Hit(v, end) => Parsed::Hit(f(v), end),
        Parsed::Miss(rule, at) => Parsed::Miss(rule, at),
    }
}

/// A value: the first that matches of the unit value, a mapping, a string,
/// an integer, a floating-point number, a boolean and a list. Collections may
/// be nested `depth` deep. Where nothing matches and no alternative came
/// beyond the start of the value, the failure is that of the rule `Value`
/// there.
pub open spec fn value(s: Seq<char>, p: int, depth: nat) -> Parsed<ValueView>
    decreases depth, 2int, 0int,
{
    let found = or_else(
        wrap(unit(s, p), |u: ()| ValueView::Unit),
        or_else(
            structure(s, p, depth),
            or_else(
                wrap(string(s, p), |t: Seq<char>| ValueView::String(t)),
                or_else(
                    wrap(integer(s, p), |i: i64| ValueView::Int(i)),
                    or_else(
                        wrap(float(s, p), |t: Seq<char>| ValueView::Float(t)),
                        or_else(
                            wrap(boolean(s, p), |b: bool| ValueView::Bool(b)),
                            list(s, p, depth),
                        ),
                    ),
                ),
            ),
        ),
    );
    match found {
        Parsed::Miss(rule, at) => if rule != Rule::Depth && at <= skip_spaces(s, p) {
            Parsed::Miss(Rule::Value, skip_spaces(s, p))
        } else {
            found
        },
        Parsed::Hit(_, _) => found,
    }
}

/// A key, an equal sign and a value.
pub open spec fn pair(s: Seq<char>, p: int, depth: nat) -> Parsed<(Seq<char>, ValueView)>
    decreases depth, 3int, 0int,
{
    match key(s, p) {
        Parsed::Miss(rule, at) => Parsed::Miss(rule, at),
        Parsed::Hit(k, q) => match equal_sign(s, q) {
            Parsed::Miss(rule, at) => Parsed::Miss(rule, at),
            Parsed::Hit(_, r) => match value(s, r, depth) {
                Parsed::Miss(rule, at) => Parsed::Miss(rule, at),
                Parsed::Hit(v, e) => Parsed::Hit((k, v), e),
            },
        },
    }
}

/// The pairs of a mapping, with a comma before each but the first. The list
/// ends before the first comma or pair that does not match; it fails only
/// where a pair fails by the rule `Depth`. (A pair ends behind where it
/// begins, inside the text: the test for it is there for the definition to
/// be well-founded.)
pub open spec fn pairs(s: Seq<char>, p: int, depth: nat, first: bool) -> Parsed<
    Seq<(Seq<char>, ValueView)>,
>
    decreases depth, 4int, s.len() - p,
{
    let start = if first {
        Parsed::Hit((), p)
    } else {
        separator(s, p)
    };
    match start {
        Parsed::Miss(_, _) => Parsed::Hit(Seq::empty(), p),
        Parsed::Hit(_, q) => match pair(s, q, depth) {
            Parsed::Miss(rule, at) => if rule == Rule::Depth {
                Parsed::Miss(rule, at)
            } else {
                Parsed::Hit(Seq::empty(), p)
            },
            Parsed::Hit(kv, e) => if p < e <= s.len() {
                match pairs(s, e, depth, false) {
                    Parsed::Miss(rule, at) => Parsed::Miss(rule, at),
                    Parsed::Hit(more, end) => Parsed::Hit(seq![kv] + more, end),
                }
            } else {
                Parsed::Hit(seq![kv], e)
            },
        },
    }
}

/// The values of a list, with a comma before each but the first. The list
/// ends before the first comma or value that does not match; it fails only
/// where a value fails by the rule `Depth`. (A value ends behind where it
/// begins, inside the text: the test for it is there for the definition to
/// be well-founded.)
pub open spec fn elements(s: Seq<char>, p: int, depth: nat, first: bool) -> Parsed<Seq<ValueView>>
    decreases depth, 4int, s.len() - p,
{
    let start = if first {
        Parsed::Hit((), p)
    } else {
        separator(s, p)
    };
    match start {
        Parsed::Miss(_, _) => Parsed::Hit(Seq::empty(), p),
        Parsed::Hit(_, q) => match value(s, q, depth) {
            Parsed::Miss(rule, at) => if rule == Rule::Depth {
                Parsed::Miss(rule, at)
            } else {
                Parsed::Hit(Seq::empty(), p)
            },
            Parsed::Hit(v, e) => if p < e <= s.len() {
                match elements(s, e, depth, false) {
                    Parsed::Miss(rule, at) => Parsed::Miss(rule, at),
                    Parsed::Hit(more, end) => Parsed::Hit(seq![v] + more, end),
                }
            } else {
                Parsed::Hit(seq![v], e)
            },
        },
    }
}

/// The position after an optional comma.
pub open spec fn after_comma(s: Seq<char>, p: int) -> int {
    match separator(s, p) {
        Parsed::Hit(_, q) => q,
        Parsed::Miss(_, _) => p,
    }
}

/// A mapping: an opening brace, pairs with commas between them, an optional
/// comma and a closing brace. A later pair with the key of an earlier one
/// takes its place. Where no collection may be nested, an opening brace
/// fails by the rule `Depth`.
pub open spec fn structure(s: Seq<char>, p: int, depth: nat) -> Parsed<ValueView>
    decreases depth, 1int, 0int,
{
    match opening(s, p) {
        Parsed::Miss(rule, at) => Parsed::Miss(rule, at),
        Parsed::Hit(_, q) => if depth == 0 {
            Parsed::Miss(Rule::Depth, skip_spaces(s, p))
        } else {
            match pairs(s, q, (depth - 1) as nat, true) {
                Parsed::Miss(rule, at) => Parsed::Miss(rule, at),
                Parsed::Hit(found, r) => match closing(s, after_comma(s, r)) {
                    Parsed::Miss(rule, at) => Parsed::Miss(rule, at),
                    Parsed::Hit(_, e) => Parsed::Hit(ValueView::Struct(collected(found)), e),
                },
            }
        },
    }
}

/// A list: an opening brace, values with commas between them, an optional
/// comma and a closing brace. Where no collection may be nested, an opening
/// brace fails by the rule `Depth`.
pub open spec fn list(s: Seq<char>, p: int, depth: nat) -> Parsed<ValueView>
    decreases depth, 1int, 0int,
{
    match opening(s, p) {
        Parsed::Miss(rule, at) => Parsed::Miss(rule, at),
        Parsed::Hit(_, q) => if depth == 0 {
            Parsed::Miss(Rule::Depth, skip_spaces(s, p))
        } else {
            match elements(s, q, (depth - 1) as nat, true) {
                Parsed::Miss(rule, at) => Parsed::Miss(rule, at),
                Parsed::Hit(found, r) => match closing(s, after_comma(s, r)) {
                    Parsed::Miss(rule, at) => Parsed::Miss(rule, at),
                    Parsed::Hit(_, e) => Parsed::Hit(ValueView::Values(found), e),
                },
            }
        },
    }
}

/// A document: one pair that takes up the whole text.
pub open spec fn document(s: Seq<char>) -> Result<AgprefView, Errors> {
    match pair(s, 0, MAX_DEPTH as nat) {
        Parsed::Miss(rule, at) => Err(Errors::Syntax { rule, position: at as usize }),
        Parsed::Hit(kv, end) => if end == s.len() {
            Ok(AgprefView { name: kv.0, values: kv.1 })
        } else {
            Err(Errors::TrailingInput { position: end as usize })
        },
    }
}

/// The named list that a text denotes: a document whose value is a list.
pub open spec fn named_list(t: Seq<char>) -> Option<NamedListView> {
    match document(t) {
        Ok(d) => match d.values {
            ValueView::Values(vs) => Some(NamedListView { name: d.name, values: vs }),
            _ => None,
        },
        Err(_) => None,
    }
}

/// A quoted string whose text denotes a named list. Where the text denotes
/// none, the failure is that of the rule `Value` where the string begins.
pub open spec fn quoted_named_list(s: Seq<char>, p: int) -> Parsed<NamedListView> {
    match string(s, p) {
        Parsed::Miss(rule, at) => Parsed::Miss(rule, at),
        Parsed::Hit(t, e) => match named_list(t) {
            Some(found) => Parsed::Hit(found, e),
            None => Parsed::Miss(Rule::Value, skip_spaces(s, p)),
        },
    }
}

} // verus!
