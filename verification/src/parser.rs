//! The parser: one function for each rule of the grammar, on the characters
//! of a text and a position in it.
//!
//! Each returns the value that stands at the position and the position after
//! it, or the rule that failed and where, exactly as the grammar says.

use crate::chars::{chars_of, scan, slice_of, text_of, Class};
use crate::errors::{agree, Errors, Failure, Parsed, Rule};
use crate::escape::{decode, unescape};
use crate::grammar::{
    MAX_DEPTH, named_list, quoted_named_list, boolean, closing, document, elements, equal_sign,
    float, integer, key, list, mark, opening, or_else, pair, pairs, separator, skip_spaces, string,
    structure, token, unit, value, wrap,
};
use crate::number::{is_float_token, parse_int};
use crate::keyindex::{index_insert, index_keys, index_new};
use crate::types::{
    collected, entries_view, keys_of, lemma_collected_is_distinct,
    lemma_position_of, lemma_view_struct, lemma_view_values, position_of, view_all, Agpref,
    NamedList, OrderedMap, Value, ValueView,
};
use crate::wellformed::{document_well_formed, lemma_document_well_formed};
use vstd::pervasive::VecAdditionalExecFns;
use vstd::prelude::*;
use vstd::string::StrSliceExecFns;

verus! {

/// The character `c` with optional whitespace on both sides.
fn mark_at(cs: &Vec<char>, p: usize, c: char, rule: Rule) -> (r: Result<((), usize), Failure>)
    requires
        p <= cs.len(),
    ensures
        agree(r, mark(cs@, p as int, c, rule)),
        r matches Ok(x) ==> p < x.1 <= cs.len(),
{
    let q = scan(Class::Space, cs, p);
    if q < cs.len() && cs[q] == c {
        Ok(((), scan(Class::Space, cs, q + 1)))
    } else {
        Err(Failure { rule, position: q })
    }
}

/// An opening brace with optional whitespace on both sides.
pub fn open_at(cs: &Vec<char>, p: usize) -> (r: Result<((), usize), Failure>)
    requires
        p <= cs.len(),
    ensures
        agree(r, opening(cs@, p as int)),
        r matches Ok(x) ==> p < x.1 <= cs.len(),
{
    mark_at(cs, p, '{', Rule::Open)
}

/// A closing brace with optional whitespace on both sides.
pub fn close_at(cs: &Vec<char>, p: usize) -> (r: Result<((), usize), Failure>)
    requires
        p <= cs.len(),
    ensures
        agree(r, closing(cs@, p as int)),
        r matches Ok(x) ==> p < x.1 <= cs.len(),
{
    mark_at(cs, p, '}', Rule::Close)
}

/// A comma with optional whitespace on both sides.
pub fn comma_at(cs: &Vec<char>, p: usize) -> (r: Result<((), usize), Failure>)
    requires
        p <= cs.len(),
    ensures
        agree(r, separator(cs@, p as int)),
        r matches Ok(x) ==> p < x.1 <= cs.len(),
{
    mark_at(cs, p, ',', Rule::Comma)
}

/// An equal sign with optional whitespace on both sides.
pub fn equals_at(cs: &Vec<char>, p: usize) -> (r: Result<((), usize), Failure>)
    requires
        p <= cs.len(),
    ensures
        agree(r, equal_sign(cs@, p as int)),
        r matches Ok(x) ==> p < x.1 <= cs.len(),
{
    mark_at(cs, p, '=', Rule::Equals)
}

/// A key with optional whitespace on both sides.
pub fn key_at(cs: &Vec<char>, p: usize) -> (r: Result<(String, usize), Failure>)
    requires
        p <= cs.len(),
    ensures
        agree(r, key(cs@, p as int)),
        r matches Ok(x) ==> p < x.1 <= cs.len(),
{
    let q = scan(Class::Space, cs, p);
    let e = scan(Class::Key, cs, q);
    if e > q {
        Ok((text_of(cs, q, e), scan(Class::Space, cs, e)))
    } else {
        Err(Failure { rule: Rule::Key, position: q })
    }
}

/// A bare token.
pub fn token_at(cs: &Vec<char>, p: usize) -> (r: Result<(Vec<char>, usize), Failure>)
    requires
        p <= cs.len(),
    ensures
        agree(r, token(cs@, p as int)),
        r matches Ok(x) ==> p < x.1 <= cs.len(),
{
    let e = scan(Class::Token, cs, p);
    if e > p {
        Ok((slice_of(cs, p, e), e))
    } else {
        Err(Failure { rule: Rule::Value, position: p })
    }
}

/// A quoted string with optional whitespace on both sides.
pub fn string_at(cs: &Vec<char>, p: usize) -> (r: Result<(String, usize), Failure>)
    requires
        p <= cs.len(),
    ensures
        agree(r, string(cs@, p as int)),
        r matches Ok(x) ==> p < x.1 <= cs.len(),
{
    let q = scan(Class::Space, cs, p);
    if q < cs.len() && cs[q] == '"' {
        match decode(cs, q + 1) {
            Err(f) => Err(f),
            Ok((text, e)) => {
                if e < cs.len() && cs[e] == '"' {
                    Ok((text, scan(Class::Space, cs, e + 1)))
                } else {
                    Err(Failure { rule: Rule::Quote, position: e })
                }
            },
        }
    } else {
        Err(Failure { rule: Rule::Quote, position: q })
    }
}

/// An integer with optional whitespace on both sides.
pub fn int_at(cs: &Vec<char>, p: usize) -> (r: Result<(i64, usize), Failure>)
    requires
        p <= cs.len(),
    ensures
        agree(r, integer(cs@, p as int)),
        r matches Ok(x) ==> p < x.1 <= cs.len(),
{
    let q = scan(Class::Space, cs, p);
    match token_at(cs, q) {
        Ok((t, e)) => match parse_int(&t) {
            Some(i) => Ok((i, scan(Class::Space, cs, e))),
            None => Err(Failure { rule: Rule::Value, position: q }),
        },
        Err(_) => Err(Failure { rule: Rule::Value, position: q }),
    }
}

/// A floating-point number with optional whitespace on both sides.
pub fn float_at(cs: &Vec<char>, p: usize) -> (r: Result<(String, usize), Failure>)
    requires
        p <= cs.len(),
    ensures
        agree(r, float(cs@, p as int)),
        r matches Ok(x) ==> p < x.1 <= cs.len(),
{
    let q = scan(Class::Space, cs, p);
    match token_at(cs, q) {
        Ok((t, e)) => {
            if is_float_token(&t) {
                Ok((text_of(cs, q, e), scan(Class::Space, cs, e)))
            } else {
                Err(Failure { rule: Rule::Value, position: q })
            }
        },
        Err(_) => Err(Failure { rule: Rule::Value, position: q }),
    }
}

/// A boolean with optional whitespace on both sides.
pub fn bool_at(cs: &Vec<char>, p: usize) -> (r: Result<(bool, usize), Failure>)
    requires
        p <= cs.len(),
    ensures
        agree(r, boolean(cs@, p as int)),
        r matches Ok(x) ==> p < x.1 <= cs.len(),
{
    let q = scan(Class::Space, cs, p);
    let e = scan(Class::Alnum, cs, q);
    let ghost word = cs@.subrange(q as int, e as int);
    let is_true = e - q == 4 && cs[q] == 't' && cs[q + 1] == 'r' && cs[q + 2] == 'u' && cs[q + 3]
        == 'e';
    let is_false = e - q == 5 && cs[q] == 'f' && cs[q + 1] == 'a' && cs[q + 2] == 'l' && cs[q + 3]
        == 's' && cs[q + 4] == 'e';
    proof {
        reveal_strlit("true");
        reveal_strlit("false");
        crate::chars::lemma_run_end(Class::Space, cs@, p as int);
        crate::chars::lemma_run_end(Class::Alnum, cs@, q as int);
        assert(word.len() == e - q);
        assert forall|k: int| 0 <= k < word.len() implies word[k] == cs@[q + k] by {}
        if is_true {
            assert(word =~= "true"@);
        }
        if is_false {
            assert(word =~= "false"@);
        }
        assert(word == "true"@ ==> is_true) by {
            if word == "true"@ {
                assert(word[0] == 't' && word[1] == 'r' && word[2] == 'u' && word[3] == 'e');
            }
        }
        assert(word == "false"@ ==> is_false) by {
            if word == "false"@ {
                assert(word[0] == 'f' && word[1] == 'a' && word[2] == 'l' && word[3] == 's'
                    && word[4] == 'e');
            }
        }
    }
    if is_true {
        Ok((true, scan(Class::Space, cs, e)))
    } else if is_false {
        Ok((false, scan(Class::Space, cs, e)))
    } else {
        Err(Failure { rule: Rule::Value, position: q })
    }
}

/// The unit value with optional whitespace on both sides.
pub fn unit_at(cs: &Vec<char>, p: usize) -> (r: Result<((), usize), Failure>)
    requires
        p <= cs.len(),
    ensures
        agree(r, unit(cs@, p as int)),
        r matches Ok(x) ==> p < x.1 <= cs.len(),
{
    match open_at(cs, p) {
        Ok((_, q)) => close_at(cs, q),
        Err(f) => Err(f),
    }
}

/// The parse whose list has `head` before the list of `tail`.
pub open spec fn extend<T>(head: Seq<T>, tail: Parsed<Seq<T>>) -> Parsed<Seq<T>> {
    match tail {
        Parsed::Hit(t, end) => Parsed::Hit(head + t, end),
        Parsed::Miss(rule, at) => Parsed::Miss(rule, at),
    }
}

proof fn lemma_extend_empty<T>(x: Parsed<Seq<T>>)
    ensures
        extend(Seq::empty(), x) == x,
{
    match x {
        Parsed::Hit(t, _) => {
            assert(Seq::<T>::empty() + t =~= t);
        },
        Parsed::Miss(_, _) => {},
    }
}

proof fn lemma_extend_push<T>(head: Seq<T>, item: T, x: Parsed<Seq<T>>)
    ensures
        extend(head, extend(seq![item], x)) == extend(head.push(item), x),
{
    match x {
        Parsed::Hit(t, _) => {
            assert(head + (seq![item] + t) =~= head.push(item) + t);
        },
        Parsed::Miss(_, _) => {},
    }
}

proof fn lemma_extend_done<T>(head: Seq<T>, end: int)
    ensures
        extend(head, Parsed::Hit(Seq::empty(), end)) == Parsed::Hit(head, end),
{
    assert(head + Seq::<T>::empty() =~= head);
}

/// Of two failures of alternatives, the one that the choice reports.
fn later(a: Failure, b: Failure) -> (f: Failure)
    ensures
        Parsed::<ValueView>::Miss(f.rule, f.position as int) == or_else(
            Parsed::<ValueView>::Miss(a.rule, a.position as int),
            Parsed::<ValueView>::Miss(b.rule, b.position as int),
        ),
{
    if a.rule == Rule::Depth {
        a
    } else if b.rule == Rule::Depth || b.position >= a.position {
        b
    } else {
        a
    }
}

/// A value that may hold collections nested `depth` deep.
pub fn value_at(cs: &Vec<char>, p: usize, depth: usize) -> (r: Result<(Value, usize), Failure>)
    requires
        p <= cs.len(),
    ensures
        agree(r, value(cs@, p as int, depth as nat)),
        r matches Ok(x) ==> p < x.1 <= cs.len(),
    decreases depth, 2int,
{
    let ghost a1 = wrap(unit(cs@, p as int), |u: ()| ValueView::Unit);
    let ghost a2 = structure(cs@, p as int, depth as nat);
    let ghost a3 = wrap(string(cs@, p as int), |t: Seq<char>| ValueView::String(t));
    let ghost a4 = wrap(integer(cs@, p as int), |i: i64| ValueView::Int(i));
    let ghost a5 = wrap(float(cs@, p as int), |t: Seq<char>| ValueView::Float(t));
    let ghost a6 = wrap(boolean(cs@, p as int), |b: bool| ValueView::Bool(b));
    let ghost a7 = list(cs@, p as int, depth as nat);
    let ghost found = or_else(
        a1,
        or_else(a2, or_else(a3, or_else(a4, or_else(a5, or_else(a6, a7))))),
    );
    proof {
        assert(value(cs@, p as int, depth as nat) == match found {
            Parsed::Miss(rule, at) => if rule != Rule::Depth && at <= skip_spaces(
                cs@,
                p as int,
            ) {
                Parsed::Miss(Rule::Value, skip_spaces(cs@, p as int))
            } else {
                found
            },
            Parsed::Hit(_, _) => found,
        });
    }
    let f1 = match unit_at(cs, p) {
        Ok((_, e)) => {
            return Ok((Value::Unit, e));
        },
        Err(f) => f,
    };
    let f2 = match struct_at(cs, p, depth) {
        Ok(found) => {
            return Ok(found);
        },
        Err(f) => f,
    };
    if f2.rule == Rule::Depth {
        return Err(f2);
    }
    proof {
        crate::chars::lemma_run_end(Class::Space, cs@, p as int);
        if skip_spaces(cs@, p as int) < cs@.len() {
            crate::escape::lemma_unescape_bounds(cs@, skip_spaces(cs@, p as int) + 1);
        }
    }
    let f3 = match string_at(cs, p) {
        Ok((text, e)) => {
            return Ok((Value::String(text), e));
        },
        Err(f) => f,
    };
    let f4 = match int_at(cs, p) {
        Ok((i, e)) => {
            return Ok((Value::Int(i), e));
        },
        Err(f) => f,
    };
    let f5 = match float_at(cs, p) {
        Ok((text, e)) => {
            return Ok((Value::Float(text), e));
        },
        Err(f) => f,
    };
    let f6 = match bool_at(cs, p) {
        Ok((b, e)) => {
            return Ok((Value::Bool(b), e));
        },
        Err(f) => f,
    };
    let f7 = match list_at(cs, p, depth) {
        Ok(found) => {
            return Ok(found);
        },
        Err(f) => f,
    };
    let f = later(f1, later(f2, later(f3, later(f4, later(f5, later(f6, f7))))));
    let start = scan(Class::Space, cs, p);
    if f.rule != Rule::Depth && f.position <= start {
        Err(Failure { rule: Rule::Value, position: start })
    } else {
        Err(f)
    }
}

/// A key, an equal sign and a value that may hold collections nested `depth`
/// deep.
pub fn pair_at(cs: &Vec<char>, p: usize, depth: usize) -> (r: Result<((String, Value), usize), Failure>)
    requires
        p <= cs.len(),
    ensures
        agree(r, pair(cs@, p as int, depth as nat)),
        r matches Ok(x) ==> p < x.1 <= cs.len(),
    decreases depth, 3int,
{
    match key_at(cs, p) {
        Err(f) => Err(f),
        Ok((k, q)) => match equals_at(cs, q) {
            Err(f) => Err(f),
            Ok((_, at)) => match value_at(cs, at, depth) {
                Err(f) => Err(f),
                Ok((v, e)) => Ok(((k, v), e)),
            },
        },
    }
}

/// A mapping whose values may hold collections nested `depth - 1` deep.
#[verifier::loop_isolation(false)]
pub fn struct_at(cs: &Vec<char>, p: usize, depth: usize) -> (r: Result<(Value, usize), Failure>)
    requires
        p <= cs.len(),
    ensures
        agree(r, structure(cs@, p as int, depth as nat)),
        r matches Ok(x) ==> p < x.1 <= cs.len(),
    decreases depth, 1int,
{
    let q = match open_at(cs, p) {
        Ok((_, q)) => q,
        Err(f) => {
            return Err(f);
        },
    };
    if depth == 0 {
        return Err(Failure { rule: Rule::Depth, position: scan(Class::Space, cs, p) });
    }
    let inner = depth - 1;
    let mut entries: Vec<(String, Value)> = Vec::new();
    let mut index = index_new();
    let ghost mut found: Seq<(Seq<char>, ValueView)> = Seq::empty();
    let mut cur: usize = q;
    let mut first = true;
    let mut more = true;
    proof {
        lemma_extend_empty(pairs(cs@, q as int, inner as nat, true));
        assert(entries_view(entries@) =~= collected(found));
        assert(keys_of(collected(found)) =~= index_keys(index));
    }
    while more
        invariant
            q <= cur <= cs.len(),
            inner == depth - 1,
            entries_view(entries@) == collected(found),
            index_keys(index) == keys_of(collected(found)),
            more ==> pairs(cs@, q as int, inner as nat, true) == extend(
                found,
                pairs(cs@, cur as int, inner as nat, first),
            ),
            !more ==> pairs(cs@, q as int, inner as nat, true) == Parsed::Hit(found, cur as int),
        decreases cs.len() - cur, (if more { 1int } else { 0int }),
    {
        let start = if first {
            Ok(((), cur))
        } else {
            comma_at(cs, cur)
        };
        match start {
            Err(_) => {
                proof {
                    lemma_extend_done(found, cur as int);
                }
                more = false;
            },
            Ok((_, at)) => match pair_at(cs, at, inner) {
                Err(f) => {
                    if f.rule == Rule::Depth {
                        return Err(f);
                    }
                    proof {
                        lemma_extend_done(found, cur as int);
                    }
                    more = false;
                },
                Ok((kv, e)) => {
                    let ghost before = collected(found);
                    proof {
                        lemma_extend_push(found, kv@, pairs(cs@, e as int, inner as nat, false));
                        assert(found.push(kv@).drop_last() =~= found);
                        lemma_position_of(before, kv@.0);
                        lemma_collected_is_distinct(found);
                        found = found.push(kv@);
                    }
                    let (place, fresh) = index_insert(&mut index, kv.0.clone());
                    if fresh {
                        proof {
                            if position_of(before, kv@.0) is Some {
                                let i = position_of(before, kv@.0)->0;
                                assert(keys_of(before)[i] == kv@.0);
                            }
                        }
                        entries.push(kv);
                        proof {
                            assert(entries_view(entries@) =~= collected(found));
                            assert(keys_of(collected(found)) =~= index_keys(index));
                        }
                    } else {
                        proof {
                            assert(keys_of(before)[place as int] == kv@.0);
                            assert(before[place as int].0 == kv@.0);
                            assert(position_of(before, kv@.0) == Some(place as int));
                        }
                        entries.set(place, kv);
                        proof {
                            assert(entries_view(entries@) =~= collected(found));
                            assert(keys_of(collected(found)) =~= index_keys(index));
                        }
                    }
                    cur = e;
                    first = false;
                },
            },
        }
    }
    let r = match comma_at(cs, cur) {
        Ok((_, at)) => at,
        Err(_) => cur,
    };
    match close_at(cs, r) {
        Err(f) => Err(f),
        Ok((_, e)) => {
            let map = OrderedMap { entries };
            proof {
                lemma_view_struct(map);
            }
            Ok((Value::Struct(map), e))
        },
    }
}

/// A list whose values may hold collections nested `depth - 1` deep.
#[verifier::loop_isolation(false)]
pub fn list_at(cs: &Vec<char>, p: usize, depth: usize) -> (r: Result<(Value, usize), Failure>)
    requires
        p <= cs.len(),
    ensures
        agree(r, list(cs@, p as int, depth as nat)),
        r matches Ok(x) ==> p < x.1 <= cs.len(),
    decreases depth, 1int,
{
    let q = match open_at(cs, p) {
        Ok((_, q)) => q,
        Err(f) => {
            return Err(f);
        },
    };
    if depth == 0 {
        return Err(Failure { rule: Rule::Depth, position: scan(Class::Space, cs, p) });
    }
    let inner = depth - 1;
    let mut items: Vec<Value> = Vec::new();
    let mut cur: usize = q;
    let mut first = true;
    let mut more = true;
    proof {
        lemma_extend_empty(elements(cs@, q as int, inner as nat, true));
        assert(view_all(items@) =~= Seq::<ValueView>::empty());
    }
    while more
        invariant
            q <= cur <= cs.len(),
            inner == depth - 1,
            more ==> elements(cs@, q as int, inner as nat, true) == extend(
                view_all(items@),
                elements(cs@, cur as int, inner as nat, first),
            ),
            !more ==> elements(cs@, q as int, inner as nat, true) == Parsed::Hit(
                view_all(items@),
                cur as int,
            ),
        decreases cs.len() - cur, (if more { 1int } else { 0int }),
    {
        let start = if first {
            Ok(((), cur))
        } else {
            comma_at(cs, cur)
        };
        match start {
            Err(_) => {
                proof {
                    lemma_extend_done(view_all(items@), cur as int);
                }
                more = false;
            },
            Ok((_, at)) => match value_at(cs, at, inner) {
                Err(f) => {
                    if f.rule == Rule::Depth {
                        return Err(f);
                    }
                    proof {
                        lemma_extend_done(view_all(items@), cur as int);
                    }
                    more = false;
                },
                Ok((v, e)) => {
                    proof {
                        lemma_extend_push(
                            view_all(items@),
                            v@,
                            elements(cs@, e as int, inner as nat, false),
                        );
                        assert(view_all(items@.push(v)) =~= view_all(items@).push(v@));
                    }
                    items.push(v);
                    cur = e;
                    first = false;
                },
            },
        }
    }
    let r = match comma_at(cs, cur) {
        Ok((_, at)) => at,
        Err(_) => cur,
    };
    match close_at(cs, r) {
        Err(f) => Err(f),
        Ok((_, e)) => {
            proof {
                lemma_view_values(items);
            }
            Ok((Value::Values(items), e))
        },
    }
}

/// Whether a parser that was given the text `s` returned what the grammar
/// says of `s` from its start: the value with the rest of the text, or the
/// syntax error with the rule that failed and where.
pub open spec fn reads<T: View>(r: Result<(&str, T), Errors>, s: Seq<char>, p: Parsed<T::V>) -> bool {
    match p {
        Parsed::Hit(v, end) => r matches Ok(x) && x.0@ == s.subrange(end, s.len() as int) && x.1@
            == v,
        Parsed::Miss(rule, at) => r == Err::<(&str, T), Errors>(
            Errors::Syntax { rule, position: at as usize },
        ),
    }
}

/// The value with the rest of the text, or the syntax error.
fn finish<'a, T: View>(s: &'a str, cs: &Vec<char>, found: Result<(T, usize), Failure>) -> (r:
    Result<(&'a str, T), Errors>)
    requires
        cs@ == s@,
        found matches Ok(x) ==> x.1 <= cs.len(),
    ensures
        forall|p: Parsed<T::V>| agree(found, p) ==> reads(r, s@, p),
{
    match found {
        Ok((v, end)) => Ok((s.substring_char(end, cs.len()), v)),
        Err(f) => Err(Errors::Syntax { rule: f.rule, position: f.position }),
    }
}

/// Reads a string's text up to the double quote that ends it, and resolves
/// its escape sequences.
pub fn esc(s: &str) -> (r: Result<(&str, String), Errors>)
    ensures
        reads(r, s@, unescape(s@, 0)),
{
    let cs = chars_of(s);
    finish(s, &cs, decode(&cs, 0))
}

/// Reads a key.
pub fn get_key(s: &str) -> (r: Result<(&str, String), Errors>)
    ensures
        reads(r, s@, key(s@, 0)),
{
    let cs = chars_of(s);
    finish(s, &cs, key_at(&cs, 0))
}

/// Reads a bare token: the text up to the first `,`, space, `}` or line
/// feed.
pub fn take_eov(s: &str) -> (r: Result<(&str, &str), Errors>)
    ensures
        reads(r, s@, token(s@, 0)),
{
    let cs = chars_of(s);
    let e = scan(Class::Token, &cs, 0);
    if e > 0 {
        Ok((s.substring_char(e, cs.len()), s.substring_char(0, e)))
    } else {
        Err(Errors::Syntax { rule: Rule::Value, position: 0 })
    }
}

/// Reads an equal sign.
pub fn equals(s: &str) -> (r: Result<(&str, ()), Errors>)
    ensures
        reads(r, s@, equal_sign(s@, 0)),
{
    let cs = chars_of(s);
    finish(s, &cs, equals_at(&cs, 0))
}

/// Reads a comma.
pub fn comma(s: &str) -> (r: Result<(&str, ()), Errors>)
    ensures
        reads(r, s@, separator(s@, 0)),
{
    let cs = chars_of(s);
    finish(s, &cs, comma_at(&cs, 0))
}

/// Reads an opening brace.
pub fn open(s: &str) -> (r: Result<(&str, ()), Errors>)
    ensures
        reads(r, s@, opening(s@, 0)),
{
    let cs = chars_of(s);
    finish(s, &cs, open_at(&cs, 0))
}

/// Reads a closing brace.
pub fn close(s: &str) -> (r: Result<(&str, ()), Errors>)
    ensures
        reads(r, s@, closing(s@, 0)),
{
    let cs = chars_of(s);
    finish(s, &cs, close_at(&cs, 0))
}

/// Reads a quoted string.
pub fn get_string(s: &str) -> (r: Result<(&str, String), Errors>)
    ensures
        reads(r, s@, string(s@, 0)),
{
    let cs = chars_of(s);
    finish(s, &cs, string_at(&cs, 0))
}

/// Reads an integer.
pub fn get_num(s: &str) -> (r: Result<(&str, i64), Errors>)
    ensures
        reads(r, s@, integer(s@, 0)),
{
    let cs = chars_of(s);
    finish(s, &cs, int_at(&cs, 0))
}

/// Reads a floating-point number, as the token that denotes it.
pub fn get_float(s: &str) -> (r: Result<(&str, String), Errors>)
    ensures
        reads(r, s@, float(s@, 0)),
{
    let cs = chars_of(s);
    finish(s, &cs, float_at(&cs, 0))
}

/// Reads a boolean.
pub fn get_bool(s: &str) -> (r: Result<(&str, bool), Errors>)
    ensures
        reads(r, s@, boolean(s@, 0)),
{
    let cs = chars_of(s);
    finish(s, &cs, bool_at(&cs, 0))
}

/// Reads the unit value.
pub fn get_unit(s: &str) -> (r: Result<(&str, ()), Errors>)
    ensures
        reads(r, s@, unit(s@, 0)),
{
    let cs = chars_of(s);
    finish(s, &cs, unit_at(&cs, 0))
}

/// Reads a list.
pub fn get_vec(s: &str) -> (r: Result<(&str, Value), Errors>)
    ensures
        reads(r, s@, list(s@, 0, MAX_DEPTH as nat)),
{
    let cs = chars_of(s);
    finish(s, &cs, list_at(&cs, 0, MAX_DEPTH))
}

/// Reads a mapping.
pub fn get_struct(s: &str) -> (r: Result<(&str, Value), Errors>)
    ensures
        reads(r, s@, structure(s@, 0, MAX_DEPTH as nat)),
{
    let cs = chars_of(s);
    finish(s, &cs, struct_at(&cs, 0, MAX_DEPTH))
}

/// Reads a value of any kind.
pub fn get_value(s: &str) -> (r: Result<(&str, Value), Errors>)
    ensures
        reads(r, s@, value(s@, 0, MAX_DEPTH as nat)),
{
    let cs = chars_of(s);
    finish(s, &cs, value_at(&cs, 0, MAX_DEPTH))
}

/// Reads a key, an equal sign and a value.
pub fn get_key_value(s: &str) -> (r: Result<(&str, (String, Value)), Errors>)
    ensures
        reads(r, s@, pair(s@, 0, MAX_DEPTH as nat)),
{
    let cs = chars_of(s);
    finish(s, &cs, pair_at(&cs, 0, MAX_DEPTH))
}

impl Agpref {
    /// Reads a document, which must take up the whole text.
    pub fn parse(s: &str) -> (r: Result<Agpref, Errors>)
        ensures
            match document(s@) {
                Ok(d) => r matches Ok(a) && a@ == d,
                Err(e) => r == Err::<Agpref, Errors>(e),
            },
            r matches Ok(a) ==> document_well_formed(a@),
    {
        proof {
            lemma_document_well_formed(s@);
        }
        let cs = chars_of(s);
        match pair_at(&cs, 0, MAX_DEPTH) {
            Err(f) => Err(Errors::Syntax { rule: f.rule, position: f.position }),
            Ok((kv, end)) => {
                if end == cs.len() {
                    Ok(Agpref { name: kv.0, values: kv.1 })
                } else {
                    Err(Errors::TrailingInput { position: end })
                }
            },
        }
    }

    /// Reads a document, as `parse` does.
    pub fn from_str(s: &str) -> (r: Result<Agpref, Errors>)
        ensures
            match document(s@) {
                Ok(d) => r matches Ok(a) && a@ == d,
                Err(e) => r == Err::<Agpref, Errors>(e),
            },
            r matches Ok(a) ==> document_well_formed(a@),
    {
        Agpref::parse(s)
    }
}

impl NamedList {
    /// Reads a text as a named list: a document whose value is a list.
    pub fn parse(s: &str) -> (r: Option<NamedList>)
        ensures
            match named_list(s@) {
                Some(found) => r matches Some(n) && n@ == found,
                None => r is None,
            },
    {
        match Agpref::parse(s) {
            Ok(doc) => {
                let Agpref { name, values } = doc;
                match values {
                    Value::Values(vs) => {
                        proof {
                            lemma_view_values(vs);
                        }
                        Some(NamedList { name, values: vs })
                    },
                    _ => None,
                }
            },
            Err(_) => None,
        }
    }
}

/// Reads a quoted string whose text is a named list.
pub fn get_namedlist(s: &str) -> (r: Result<(&str, NamedList), Errors>)
    ensures
        reads(r, s@, quoted_named_list(s@, 0)),
{
    let cs = chars_of(s);
    let found = match string_at(&cs, 0) {
        Err(f) => Err(f),
        Ok((text, e)) => match NamedList::parse(text.as_str()) {
            Some(n) => Ok((n, e)),
            None => Err(Failure { rule: Rule::Value, position: scan(Class::Space, &cs, 0) }),
        },
    };
    proof {
        assert(agree(found, quoted_named_list(s@, 0)));
    }
    finish(s, &cs, found)
}

} // verus!
