//! What holds of every document that the parser returns.

use crate::chars::{in_class, lemma_run_end, run_end, Class};
use crate::errors::{Parsed, Rule};
use crate::escape::lemma_unescape_bounds;
use crate::grammar::{
    after_comma, boolean, document, elements, equal_sign, float, integer, key, list, mark, opening,
    pair, pairs, separator, skip_spaces, string, structure, token, unit, value, MAX_DEPTH,
};
use crate::number::{int_of, is_float};
use crate::roundtrip::plain_key;
use crate::types::{
    collected, distinct_keys, lemma_collected_is_distinct, lemma_position_of, position_of,
    AgprefView, ValueView,
};
use vstd::prelude::*;

verus! {

/// Whether a value is one that the parser can return: its collections are
/// nested at most `depth` deep, the token of each floating-point number fits
/// their grammar and denotes no integer, and the keys of each mapping differ
/// from each other, are not empty and hold no whitespace and no `=`.
pub open spec fn well_formed(v: ValueView, depth: nat) -> bool
    decreases v,
{
    match v {
        ValueView::Unit => true,
        ValueView::Int(_) => true,
        ValueView::Bool(_) => true,
        ValueView::String(_) => true,
        ValueView::Float(t) => is_float(t) && int_of(t) is None,
        ValueView::Values(vs) => {
            &&& depth > 0
            &&& forall|i: int|
                0 <= i < vs.len() ==> well_formed(#[trigger] vs[i], (depth - 1) as nat)
        },
        ValueView::Struct(ps) => {
            &&& depth > 0
            &&& distinct_keys(ps)
            &&& forall|i: int|
                0 <= i < ps.len() ==> plain_key((#[trigger] ps[i]).0) && well_formed(
                    ps[i].1,
                    (depth - 1) as nat,
                )
        },
    }
}

/// Whether each of some entries has a key that can be read back and a value
/// that the parser can return.
pub open spec fn entries_well_formed(ps: Seq<(Seq<char>, ValueView)>, depth: nat) -> bool {
    forall|i: int|
        0 <= i < ps.len() ==> plain_key((#[trigger] ps[i]).0) && well_formed(ps[i].1, depth)
}

/// A punctuation mark ends behind where it begins, inside the text.
pub proof fn lemma_mark_bounds(s: Seq<char>, p: int, c: char, rule: Rule)
    requires
        0 <= p <= s.len(),
    ensures
        mark(s, p, c, rule) matches Parsed::Hit(_, e) ==> p < e <= s.len(),
{
    lemma_run_end(Class::Space, s, p);
    let q = skip_spaces(s, p);
    if q < s.len() {
        lemma_run_end(Class::Space, s, q + 1);
    }
}

/// A key that was read can be read back as a key, and ends behind where it
/// begins, inside the text.
pub proof fn lemma_key_well_formed(s: Seq<char>, p: int)
    requires
        0 <= p <= s.len(),
    ensures
        key(s, p) matches Parsed::Hit(k, e) ==> plain_key(k) && p < e <= s.len(),
{
    lemma_run_end(Class::Space, s, p);
    let q = skip_spaces(s, p);
    lemma_run_end(Class::Key, s, q);
    let e = run_end(Class::Key, s, q);
    lemma_run_end(Class::Space, s, e);
    if e > q {
        let k = s.subrange(q, e);
        assert forall|i: int| 0 <= i < k.len() implies in_class(Class::Key, #[trigger] k[i]) by {
            assert(k[i] == s[q + i]);
        }
    }
}

/// Every scalar rule ends behind where it begins, inside the text.
pub proof fn lemma_scalar_bounds(s: Seq<char>, p: int)
    requires
        0 <= p <= s.len(),
    ensures
        unit(s, p) matches Parsed::Hit(_, e) ==> p < e <= s.len(),
        string(s, p) matches Parsed::Hit(_, e) ==> p < e <= s.len(),
        integer(s, p) matches Parsed::Hit(_, e) ==> p < e <= s.len(),
        float(s, p) matches Parsed::Hit(_, e) ==> p < e <= s.len(),
        boolean(s, p) matches Parsed::Hit(_, e) ==> p < e <= s.len(),
{
    lemma_run_end(Class::Space, s, p);
    let q = skip_spaces(s, p);
    lemma_mark_bounds(s, p, '{', Rule::Open);
    match opening(s, p) {
        Parsed::Hit(_, e) => {
            lemma_mark_bounds(s, e, '}', Rule::Close);
        },
        _ => {},
    }
    if q < s.len() {
        lemma_unescape_bounds(s, q + 1);
        if unescape_end(s, q + 1) < s.len() {
            lemma_run_end(Class::Space, s, unescape_end(s, q + 1) + 1);
        }
    }
    lemma_run_end(Class::Token, s, q);
    lemma_run_end(Class::Space, s, run_end(Class::Token, s, q));
    lemma_run_end(Class::Alnum, s, q);
    lemma_run_end(Class::Space, s, run_end(Class::Alnum, s, q));
}

/// Where reading a string from `p` on ends, if it does not fail.
pub open spec fn unescape_end(s: Seq<char>, p: int) -> int {
    match crate::escape::unescape(s, p) {
        Parsed::Hit(_, e) => e,
        Parsed::Miss(_, _) => p,
    }
}

/// Every entry of a mapping that was collected from pairs is one of the
/// pairs.
pub proof fn lemma_collected_members(pairs: Seq<(Seq<char>, ValueView)>, i: int)
    requires
        0 <= i < collected(pairs).len(),
    ensures
        exists|j: int| 0 <= j < pairs.len() && #[trigger] pairs[j] == collected(pairs)[i],
    decreases pairs.len(),
{
    if pairs.len() > 0 {
        let front = pairs.drop_last();
        let m = collected(front);
        let k = pairs.last().0;
        let v = pairs.last().1;
        lemma_position_of(m, k);
        let last = pairs.len() - 1;
        assert(pairs[last] == (k, v));
        let at_last = match position_of(m, k) {
            Some(at) => i == at,
            None => i == m.len(),
        };
        if !at_last {
            assert(collected(pairs)[i] == m[i]);
            lemma_collected_members(front, i);
            let j = choose|j: int| 0 <= j < front.len() && #[trigger] front[j] == m[i];
            assert(pairs[j] == front[j]);
        }
    }
}

/// Collecting entries with keys that can be read back and values that the
/// parser can return gives a mapping of such entries, with keys that differ
/// from each other.
pub proof fn lemma_collected_well_formed(pairs: Seq<(Seq<char>, ValueView)>, depth: nat)
    requires
        entries_well_formed(pairs, depth),
    ensures
        entries_well_formed(collected(pairs), depth),
        distinct_keys(collected(pairs)),
{
    lemma_collected_is_distinct(pairs);
    let m = collected(pairs);
    assert forall|i: int| 0 <= i < m.len() implies plain_key((#[trigger] m[i]).0) && well_formed(
        m[i].1,
        depth,
    ) by {
        lemma_collected_members(pairs, i);
        let j = choose|j: int| 0 <= j < pairs.len() && #[trigger] pairs[j] == m[i];
        assert(plain_key(pairs[j].0) && well_formed(pairs[j].1, depth));
    }
}

/// A value that was read is one that the parser can return, and ends behind
/// where it begins, inside the text.
pub proof fn lemma_value_well_formed(s: Seq<char>, p: int, depth: nat)
    requires
        0 <= p <= s.len(),
    ensures
        value(s, p, depth) matches Parsed::Hit(v, e) ==> well_formed(v, depth) && p < e <= s.len(),
    decreases depth, 2int, 0int,
{
    lemma_scalar_bounds(s, p);
    lemma_structure_well_formed(s, p, depth);
    lemma_list_well_formed(s, p, depth);
    let a4 = integer(s, p);
    let a5 = float(s, p);
    match value(s, p, depth) {
        Parsed::Hit(v, e) => {
            if v is Float {
                assert(a4 is Miss);
                assert(a5 is Hit);
            }
        },
        _ => {},
    }
}

/// An entry that was read has a key that can be read back and a value that
/// the parser can return, and ends behind where it begins, inside the text.
pub proof fn lemma_pair_well_formed(s: Seq<char>, p: int, depth: nat)
    requires
        0 <= p <= s.len(),
    ensures
        pair(s, p, depth) matches Parsed::Hit(kv, e) ==> plain_key(kv.0) && well_formed(
            kv.1,
            depth,
        ) && p < e <= s.len(),
    decreases depth, 3int, 0int,
{
    lemma_key_well_formed(s, p);
    match key(s, p) {
        Parsed::Hit(k, q) => {
            lemma_mark_bounds(s, q, '=', Rule::Equals);
        match equal_sign(s, q) {
            Parsed::Hit(_, r) => {
                    lemma_value_well_formed(s, r, depth);
            },
            _ => {},
        }
        },
        _ => {},
    }
}

/// The entries that were read are entries with keys that can be read back
/// and values that the parser can return, and end inside the text.
pub proof fn lemma_pairs_well_formed(s: Seq<char>, p: int, depth: nat, first: bool)
    requires
        0 <= p <= s.len(),
    ensures
        pairs(s, p, depth, first) matches Parsed::Hit(found, e) ==> entries_well_formed(
            found,
            depth,
        ) && p <= e <= s.len(),
    decreases depth, 4int, s.len() - p,
{
    lemma_mark_bounds(s, p, ',', Rule::Comma);
    let start = if first {
        Parsed::Hit((), p)
    } else {
        separator(s, p)
    };
    match start {
        Parsed::Hit(_, q) => {
            lemma_pair_well_formed(s, q, depth);
        match pair(s, q, depth) {
            Parsed::Hit(kv, e) => {
                    if p < e <= s.len() {
                        lemma_pairs_well_formed(s, e, depth, false);
                match pairs(s, e, depth, false) {
                    Parsed::Hit(more, end) => {
                                let found = seq![kv] + more;
                                assert forall|i: int| 0 <= i < found.len() implies plain_key(
                                    (#[trigger] found[i]).0,
                                ) && well_formed(found[i].1, depth) by {
                                    if i > 0 {
                                        assert(found[i] == more[i - 1]);
                                    }
                                }
                    },
                    _ => {},
                }
                    }
            },
            _ => {},
        }
        },
        _ => {},
    }
}

/// The values that were read are values that the parser can return, and end
/// inside the text.
pub proof fn lemma_elements_well_formed(s: Seq<char>, p: int, depth: nat, first: bool)
    requires
        0 <= p <= s.len(),
    ensures
        elements(s, p, depth, first) matches Parsed::Hit(found, e) ==> (forall|i: int|
            0 <= i < found.len() ==> well_formed(#[trigger] found[i], depth)) && p <= e <= s.len(),
    decreases depth, 4int, s.len() - p,
{
    lemma_mark_bounds(s, p, ',', Rule::Comma);
    let start = if first {
        Parsed::Hit((), p)
    } else {
        separator(s, p)
    };
    match start {
        Parsed::Hit(_, q) => {
            lemma_value_well_formed(s, q, depth);
        match value(s, q, depth) {
            Parsed::Hit(v, e) => {
                    if p < e <= s.len() {
                        lemma_elements_well_formed(s, e, depth, false);
                match elements(s, e, depth, false) {
                    Parsed::Hit(more, end) => {
                                let found = seq![v] + more;
                                assert forall|i: int| 0 <= i < found.len() implies well_formed(
                                    #[trigger] found[i],
                                    depth,
                                ) by {
                                    if i > 0 {
                                        assert(found[i] == more[i - 1]);
                                    }
                                }
                    },
                    _ => {},
                }
                    }
            },
            _ => {},
        }
        },
        _ => {},
    }
}

/// A mapping that was read is one that the parser can return, and ends
/// behind where it begins, inside the text.
pub proof fn lemma_structure_well_formed(s: Seq<char>, p: int, depth: nat)
    requires
        0 <= p <= s.len(),
    ensures
        structure(s, p, depth) matches Parsed::Hit(v, e) ==> v is Struct && well_formed(v, depth)
            && p < e <= s.len(),
    decreases depth, 1int, 0int,
{
    lemma_mark_bounds(s, p, '{', Rule::Open);
    match opening(s, p) {
        Parsed::Hit(_, q) => {
            if depth > 0 {
                let d = (depth - 1) as nat;
                lemma_pairs_well_formed(s, q, d, true);
            match pairs(s, q, d, true) {
                Parsed::Hit(found, r) => {
                        lemma_mark_bounds(s, r, ',', Rule::Comma);
                        lemma_mark_bounds(s, after_comma(s, r), '}', Rule::Close);
                        lemma_collected_well_formed(found, d);
                },
                _ => {},
            }
            }
        },
        _ => {},
    }
}

/// A list that was read is one that the parser can return, and ends behind
/// where it begins, inside the text.
pub proof fn lemma_list_well_formed(s: Seq<char>, p: int, depth: nat)
    requires
        0 <= p <= s.len(),
    ensures
        list(s, p, depth) matches Parsed::Hit(v, e) ==> v is Values && well_formed(v, depth) && p
            < e <= s.len(),
    decreases depth, 1int, 0int,
{
    lemma_mark_bounds(s, p, '{', Rule::Open);
    match opening(s, p) {
        Parsed::Hit(_, q) => {
            if depth > 0 {
                let d = (depth - 1) as nat;
                lemma_elements_well_formed(s, q, d, true);
            match elements(s, q, d, true) {
                Parsed::Hit(found, r) => {
                        lemma_mark_bounds(s, r, ',', Rule::Comma);
                        lemma_mark_bounds(s, after_comma(s, r), '}', Rule::Close);
                },
                _ => {},
            }
            }
        },
        _ => {},
    }
}

/// Whether a document is one that the parser can return.
pub open spec fn document_well_formed(d: AgprefView) -> bool {
    plain_key(d.name) && well_formed(d.values, MAX_DEPTH as nat)
}

/// Every document that the parser returns has a name that can be read back
/// as a key and a value that the parser can return.
pub proof fn lemma_document_well_formed(s: Seq<char>)
    ensures
        document(s) matches Ok(d) ==> document_well_formed(d),
{
    lemma_pair_well_formed(s, 0, MAX_DEPTH as nat);
}

} // verus!
