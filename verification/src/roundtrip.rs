//! Reading back what the composer wrote: on the text of a document that
//! meets a few conditions, the parser gives the document back.

use crate::chars::{
    chars_of, in_class, is_space, lemma_run_end, lemma_run_end_is, run_end, scan, Class,
};
use crate::composer::{
    closer, opener, render, render_document, render_items, render_pair, render_pairs, Info,
};
use crate::errors::{Parsed, Rule};
use crate::escape::{escape, escape_string, lemma_unescape_escaped, stands_at};
use crate::grammar::{
    boolean, closing, document, elements, equal_sign, float, integer, key, list, opening, pair,
    pairs, separator, skip_spaces, string, structure, token, unit, value, MAX_DEPTH,
};
use crate::number::{
    int_of, int_text, is_float, is_float_token, is_numeric_char, lemma_float_chars,
    lemma_int_of_begins, lemma_int_text, parse_int,
};
use crate::types::{
    collected, distinct_keys, lemma_view_struct, lemma_view_values, position_of, view_all, Agpref,
    AgprefView, OrderedMap, Value, ValueView,
};
use crate::wellformed::{lemma_document_well_formed, well_formed};
use vstd::prelude::*;

verus! {

/// Whether a text can be read back as a key: it is not empty and holds no
/// whitespace and no `=`.
pub open spec fn plain_key(k: Seq<char>) -> bool {
    &&& k.len() > 0
    &&& forall|i: int| 0 <= i < k.len() ==> in_class(Class::Key, #[trigger] k[i])
}

/// Whether a text begins like an entry of a mapping: with characters that
/// may stand in a key, then optional whitespace, then `=`.
pub open spec fn begins_like_pair(q: Seq<char>) -> bool {
    let m = skip_spaces(q, run_end(Class::Key, q, 0));
    m < q.len() && q[m] == '='
}

/// A string as it is written: between double quotes, escaped.
pub open spec fn quoted(t: Seq<char>) -> Seq<char> {
    "\""@ + escape(t) + "\""@
}

/// Whether the parser gives a value back from its text. Collections are
/// nested at most `depth` deep and are not empty. The token of a
/// floating-point number fits their grammar and denotes no integer. The keys
/// of a mapping differ from each other and can be read back as keys, and the
/// first does not begin with `}`. Where the first value of a list is a
/// string, its text does not begin like an entry of a mapping.
pub open spec fn faithful(v: ValueView, depth: nat) -> bool
    decreases v,
{
    match v {
        ValueView::Unit => true,
        ValueView::Int(_) => true,
        ValueView::Bool(_) => true,
        ValueView::String(_) => true,
        ValueView::Float(t) => is_float(t) && int_of(t) is None,
        ValueView::Values(vs) => {
            &&& depth > 0
            &&& vs.len() > 0
            &&& forall|i: int| 0 <= i < vs.len() ==> faithful(#[trigger] vs[i], (depth - 1) as nat)
            &&& (vs[0] matches ValueView::String(t) ==> !begins_like_pair(quoted(t)))
        },
        ValueView::Struct(ps) => {
            &&& depth > 0
            &&& ps.len() > 0
            &&& distinct_keys(ps)
            &&& ps[0].0[0] != '}'
            &&& forall|i: int|
                0 <= i < ps.len() ==> plain_key((#[trigger] ps[i]).0) && faithful(
                    ps[i].1,
                    (depth - 1) as nat,
                )
        },
    }
}

/// Whether the parser gives a document back from its text: its name can be
/// read back as a key, and its value can be read back.
pub open spec fn canonical(d: AgprefView) -> bool {
    plain_key(d.name) && faithful(d.values, MAX_DEPTH as nat)
}

/// Whether a character can begin the text of a value or a key: it is no
/// whitespace, no `=`, no `,` and no `}`.
pub open spec fn leads(c: char) -> bool {
    !is_space(c) && c != '=' && c != ',' && c != '}'
}

/// Whether a value's text may end at the position `e`: the text ends there,
/// or goes on with a comma, a space or a line feed.
pub open spec fn follows(s: Seq<char>, e: int) -> bool {
    e == s.len() || (0 <= e < s.len() && (s[e] == ',' || s[e] == ' ' || s[e] == '\n'))
}

/// Where two texts stand one after the other, each of them stands.
pub proof fn lemma_stands_split(s: Seq<char>, p: int, a: Seq<char>, b: Seq<char>)
    requires
        stands_at(s, p, a + b),
    ensures
        stands_at(s, p, a),
        stands_at(s, p + a.len(), b),
{
    assert forall|i: int| 0 <= i < a.len() implies s[p + i] == #[trigger] a[i] by {
        assert((a + b)[i] == a[i]);
    }
    assert forall|i: int| 0 <= i < b.len() implies s[p + a.len() + i] == #[trigger] b[i] by {
        assert((a + b)[a.len() + i] == b[i]);
    }
}

/// A text that stands at a position is the part of the whole from there on.
pub proof fn lemma_stands_subrange(s: Seq<char>, p: int, t: Seq<char>)
    requires
        stands_at(s, p, t),
    ensures
        s.subrange(p, p + t.len()) == t,
{
    assert forall|i: int| 0 <= i < t.len() implies s.subrange(p, p + t.len())[i] == t[i] by {
        assert(s[p + i] == t[i]);
    }
    assert(s.subrange(p, p + t.len()) =~= t);
}

/// Whitespace is skipped up to a character that is none.
pub proof fn lemma_skip_to(s: Seq<char>, p: int, e: int)
    requires
        0 <= p <= e <= s.len(),
        forall|i: int| p <= i < e ==> is_space(#[trigger] s[i]),
        e < s.len() ==> !is_space(s[e]),
    ensures
        skip_spaces(s, p) == e,
{
    lemma_run_end_is(Class::Space, s, p, e);
}

/// Texts joined by a comma and a line feed: the first `n` of them.
pub open spec fn joined(parts: Seq<Seq<char>>, n: nat) -> Seq<char>
    decreases n,
{
    if n == 0 || n > parts.len() {
        Seq::empty()
    } else if n == 1 {
        parts[0]
    } else {
        joined(parts, (n - 1) as nat) + ",\n"@ + parts[n - 1]
    }
}

/// Where the first `n` of some joined texts stand, the first `m` of them
/// stand, for `m` up to `n`.
pub proof fn lemma_joined_prefix(s: Seq<char>, base: int, parts: Seq<Seq<char>>, n: nat, m: nat)
    requires
        stands_at(s, base, joined(parts, n)),
        1 <= m <= n <= parts.len(),
    ensures
        stands_at(s, base, joined(parts, m)),
    decreases n - m,
{
    if m < n {
        assert(joined(parts, n) == joined(parts, (n - 1) as nat) + (",\n"@ + parts[n - 1])) by {
            assert(joined(parts, (n - 1) as nat) + ",\n"@ + parts[n - 1] =~= joined(
                parts,
                (n - 1) as nat,
            ) + (",\n"@ + parts[n - 1]));
        }
        lemma_stands_split(s, base, joined(parts, (n - 1) as nat), ",\n"@ + parts[n - 1]);
        lemma_joined_prefix(s, base, parts, (n - 1) as nat, m);
    }
}

/// Where the `i`-th of some joined texts begins.
pub open spec fn part_start(parts: Seq<Seq<char>>, i: nat) -> int {
    if i == 0 {
        0
    } else {
        (joined(parts, i).len() + 2) as int
    }
}

/// Where some joined texts stand, each of them stands at its place, after a
/// comma and a line feed if it is not the first, and ends where the texts up
/// to it end.
pub proof fn lemma_joined_part(s: Seq<char>, base: int, parts: Seq<Seq<char>>, n: nat, i: nat)
    requires
        stands_at(s, base, joined(parts, n)),
        i < n <= parts.len(),
    ensures
        stands_at(s, base + part_start(parts, i), parts[i as int]),
        part_start(parts, i) + parts[i as int].len() == joined(parts, i + 1).len(),
        i > 0 ==> s[base + joined(parts, i).len()] == ',' && s[base + joined(parts, i).len() + 1]
            == '\n',
        base + joined(parts, i + 1).len() <= base + joined(parts, n).len() <= s.len(),
{
    reveal_strlit(",\n");
    lemma_joined_prefix(s, base, parts, n, i + 1);
    if i > 0 {
        let a = joined(parts, i);
        let b = ",\n"@;
        let c = parts[i as int];
        assert(joined(parts, i + 1) == a + b + c);
        assert(a + b + c =~= a + (b + c));
        lemma_stands_split(s, base, a, b + c);
        lemma_stands_split(s, base + a.len(), b, c);
        assert(s[base + a.len() + 0] == b[0]);
        assert(s[base + a.len() + 1] == b[1]);
    }
    lemma_joined_len(parts, n, i + 1);
}

/// The first `m` of some joined texts are no longer than the first `n`, for
/// `m` up to `n`.
pub proof fn lemma_joined_len(parts: Seq<Seq<char>>, n: nat, m: nat)
    requires
        m <= n <= parts.len(),
    ensures
        joined(parts, m).len() <= joined(parts, n).len(),
    decreases n - m,
{
    if m < n {
        lemma_joined_len(parts, (n - 1) as nat, m);
    }
}

/// The texts of the values of a list.
pub open spec fn item_texts(vs: Seq<ValueView>, info: Info) -> Seq<Seq<char>> {
    Seq::new(vs.len(), |i: int| render(vs[i], info))
}

/// The texts of the entries of a mapping.
pub open spec fn pair_texts(ps: Seq<(Seq<char>, ValueView)>, info: Info) -> Seq<Seq<char>> {
    Seq::new(ps.len(), |i: int| render_pair(ps[i].0, ps[i].1, info))
}

/// The text of the values of a list is their texts, joined.
pub proof fn lemma_items_joined(vs: Seq<ValueView>, info: Info, n: nat)
    requires
        n <= vs.len(),
    ensures
        render_items(vs, info, n) == joined(item_texts(vs, info), n),
    decreases n,
{
    if n > 1 {
        lemma_items_joined(vs, info, (n - 1) as nat);
    }
}

/// The text of the entries of a mapping is their texts, joined.
pub proof fn lemma_pairs_joined(ps: Seq<(Seq<char>, ValueView)>, info: Info, n: nat)
    requires
        n <= ps.len(),
    ensures
        render_pairs(ps, info, n) == joined(pair_texts(ps, info), n),
    decreases n,
{
    if n > 1 {
        lemma_pairs_joined(ps, info, (n - 1) as nat);
    }
}

/// The opening of a collection is a brace and one whitespace character.
pub proof fn lemma_opener(info: Info)
    ensures
        opener(info).len() == 2,
        opener(info)[0] == '{',
        is_space(opener(info)[1]),
{
    reveal_strlit("{\n");
    reveal_strlit("{ ");
}

/// The closing of a mapping is a space or a line feed and a brace.
pub proof fn lemma_closer(info: Info)
    ensures
        closer(info).len() == 2,
        closer(info)[0] == ' ' || closer(info)[0] == '\n',
        closer(info)[1] == '}',
{
    reveal_strlit("\n}");
    reveal_strlit(" }");
}

/// The text of a value that can be read back is not empty and begins with a
/// character that can begin a value.
pub proof fn lemma_render_leads(v: ValueView, info: Info, depth: nat)
    requires
        faithful(v, depth),
    ensures
        render(v, info).len() > 0,
        leads(render(v, info)[0]),
{
    reveal_strlit("{ }");
    reveal_strlit("true");
    reveal_strlit("false");
    reveal_strlit("\"");
    reveal_strlit(" }");
    lemma_opener(info);
    lemma_closer(info);
    match v {
        ValueView::Unit => {},
        ValueView::Int(i) => {
            lemma_int_text(i);
            assert(is_numeric_char(int_text(i)[0]));
        },
        ValueView::Float(t) => {
            lemma_float_chars(t);
            assert(is_numeric_char(t[0]));
        },
        ValueView::Bool(b) => {},
        ValueView::String(t) => {
            assert(render(v, info)[0] == "\""@[0]);
        },
        ValueView::Values(vs) => {
            assert(render(v, info)[0] == opener(info)[0]);
        },
        ValueView::Struct(ps) => {
            assert(render(v, info)[0] == opener(info)[0]);
        },
    }
}

/// Where the character at which a value would begin is no opening brace,
/// neither the unit value nor a mapping nor a list stands there.
pub proof fn lemma_no_brace(s: Seq<char>, p0: int, p: int, depth: nat)
    requires
        skip_spaces(s, p0) == p,
        !(0 <= p < s.len() && s[p] == '{'),
    ensures
        unit(s, p0) == Parsed::<()>::Miss(Rule::Open, p),
        structure(s, p0, depth) == Parsed::<ValueView>::Miss(Rule::Open, p),
        list(s, p0, depth) == Parsed::<ValueView>::Miss(Rule::Open, p),
{
}

/// Where a token begins with a character that is no digit, no sign, no point
/// and no letter, no integer and no floating-point number stands there.
pub proof fn lemma_no_number(s: Seq<char>, p0: int, p: int)
    requires
        skip_spaces(s, p0) == p,
        0 <= p < s.len(),
        !is_numeric_char(s[p]),
    ensures
        integer(s, p0) == Parsed::<i64>::Miss(Rule::Value, p),
        float(s, p0) == Parsed::<Seq<char>>::Miss(Rule::Value, p),
{
    match token(s, p) {
        Parsed::Hit(t, e) => {
            lemma_run_end(Class::Token, s, p);
            assert(t[0] == s[p]);
            if int_of(t) is Some {
                lemma_int_of_begins(t);
            }
            if is_float(t) {
                lemma_float_chars(t);
                assert(is_numeric_char(t[0]));
            }
        },
        Parsed::Miss(_, _) => {},
    }
}

/// The parser reads the unit value back from its text.
pub proof fn lemma_value_unit(s: Seq<char>, p0: int, p: int, depth: nat)
    requires
        0 <= p0 <= p,
        skip_spaces(s, p0) == p,
        stands_at(s, p, "{ }"@),
    ensures
        value(s, p0, depth) == Parsed::Hit(ValueView::Unit, skip_spaces(s, p + 3)),
{
    reveal_strlit("{ }");
    let t = "{ }"@;
    assert(s[p + 0] == t[0] && s[p + 1] == t[1] && s[p + 2] == t[2]);
    lemma_skip_to(s, p + 1, p + 2);
    lemma_skip_to(s, p + 2, p + 2);
    assert(opening(s, p0) == Parsed::Hit((), p + 2));
    assert(closing(s, p + 2) == Parsed::Hit((), skip_spaces(s, p + 3)));
    assert(unit(s, p0) == Parsed::Hit((), skip_spaces(s, p + 3)));
}

/// The parser reads a string back from its text.
pub proof fn lemma_value_string(s: Seq<char>, p0: int, p: int, t: Seq<char>, depth: nat)
    requires
        0 <= p0 <= p,
        skip_spaces(s, p0) == p,
        stands_at(s, p, quoted(t)),
    ensures
        value(s, p0, depth) == Parsed::Hit(
            ValueView::String(t),
            skip_spaces(s, p + quoted(t).len()),
        ),
{
    reveal_strlit("\"");
    let q = "\""@;
    let e = escape(t);
    assert(quoted(t) =~= q + (e + q));
    lemma_stands_split(s, p, q, e + q);
    lemma_stands_split(s, p + 1, e, q);
    assert(s[p + 0] == q[0]);
    assert(s[p + 1 + e.len() + 0] == q[0]);
    lemma_unescape_escaped(s, p + 1, t);
    lemma_no_brace(s, p0, p, depth);
    assert(string(s, p0) == Parsed::Hit(t, skip_spaces(s, p + e.len() + 2)));
}

/// Where a token of numeric characters stands and a value's text may end
/// after it, the bare token that begins there is this token.
pub proof fn lemma_token_stands(s: Seq<char>, p: int, t: Seq<char>)
    requires
        stands_at(s, p, t),
        t.len() > 0,
        forall|k: int| 0 <= k < t.len() ==> is_numeric_char(#[trigger] t[k]),
        follows(s, p + t.len()),
    ensures
        token(s, p) == Parsed::Hit(t, p + t.len()),
        run_end(Class::Key, s, p) >= p + t.len(),
        !is_space(s[p]),
{
    assert forall|i: int| p <= i < p + t.len() implies in_class(Class::Token, #[trigger] s[i])
        && in_class(Class::Key, s[i]) by {
        assert(s[p + (i - p)] == t[i - p]);
        assert(is_numeric_char(t[i - p]));
    }
    lemma_run_end_is(Class::Token, s, p, p + t.len());
    lemma_stands_subrange(s, p, t);
    lemma_run_end(Class::Key, s, p);
    assert(s[p + 0] == t[0]);
    assert(is_numeric_char(t[0]));
    if run_end(Class::Key, s, p) < p + t.len() {
        assert(in_class(Class::Key, s[run_end(Class::Key, s, p)]));
    }
}

/// The parser reads an integer back from its text.
pub proof fn lemma_value_int(s: Seq<char>, p0: int, p: int, i: i64, depth: nat)
    requires
        0 <= p0 <= p,
        skip_spaces(s, p0) == p,
        stands_at(s, p, int_text(i)),
        follows(s, p + int_text(i).len()),
    ensures
        value(s, p0, depth) == Parsed::Hit(
            ValueView::Int(i),
            skip_spaces(s, p + int_text(i).len()),
        ),
{
    let t = int_text(i);
    lemma_int_text(i);
    lemma_token_stands(s, p, t);
    assert(s[p + 0] == t[0]);
    assert(is_numeric_char(t[0]));
    lemma_no_brace(s, p0, p, depth);
    assert(string(s, p0) == Parsed::<Seq<char>>::Miss(Rule::Quote, p));
    assert(integer(s, p0) == Parsed::Hit(i, skip_spaces(s, p + t.len())));
}

/// The parser reads a floating-point number back from its token.
pub proof fn lemma_value_float(s: Seq<char>, p0: int, p: int, t: Seq<char>, depth: nat)
    requires
        0 <= p0 <= p,
        skip_spaces(s, p0) == p,
        is_float(t),
        int_of(t) is None,
        stands_at(s, p, t),
        follows(s, p + t.len()),
    ensures
        value(s, p0, depth) == Parsed::Hit(ValueView::Float(t), skip_spaces(s, p + t.len())),
{
    lemma_float_chars(t);
    lemma_token_stands(s, p, t);
    assert(s[p + 0] == t[0]);
    assert(is_numeric_char(t[0]));
    lemma_no_brace(s, p0, p, depth);
    assert(string(s, p0) == Parsed::<Seq<char>>::Miss(Rule::Quote, p));
    assert(integer(s, p0) == Parsed::<i64>::Miss(Rule::Value, p));
    assert(float(s, p0) == Parsed::Hit(t, skip_spaces(s, p + t.len())));
}

/// The words `true` and `false` denote no number.
pub proof fn lemma_words_are_no_numbers()
    ensures
        int_of("true"@) is None,
        int_of("false"@) is None,
        !is_float("true"@),
        !is_float("false"@),
{
    reveal_strlit("true");
    reveal_strlit("false");
    reveal_strlit("inf");
    reveal_strlit("infinity");
    reveal_strlit("nan");
    let t = "true"@;
    let f = "false"@;
    if int_of(t) is Some {
        lemma_int_of_begins(t);
    }
    if int_of(f) is Some {
        lemma_int_of_begins(f);
    }
    lemma_run_end_is(Class::Digit, t, 0, 0);
    lemma_run_end_is(Class::Digit, f, 0, 0);
    assert(!crate::number::spells(t, 0, "inf"@));
    assert(!crate::number::spells(t, 0, "nan"@));
    assert(!crate::number::spells(t, 0, "infinity"@));
    assert(!crate::number::spells(f, 0, "inf"@));
    assert(!crate::number::spells(f, 0, "nan"@));
    assert(!crate::number::spells(f, 0, "infinity"@));
}

/// The parser reads a boolean back from its text.
pub proof fn lemma_value_bool(s: Seq<char>, p0: int, p: int, b: bool, depth: nat)
    requires
        0 <= p0 <= p,
        skip_spaces(s, p0) == p,
        stands_at(s, p, if b { "true"@ } else { "false"@ }),
        follows(s, p + (if b { "true"@ } else { "false"@ }).len()),
    ensures
        value(s, p0, depth) == Parsed::Hit(
            ValueView::Bool(b),
            skip_spaces(s, p + (if b { "true"@ } else { "false"@ }).len()),
        ),
{
    reveal_strlit("true");
    reveal_strlit("false");
    let t = if b {
        "true"@
    } else {
        "false"@
    };
    lemma_words_are_no_numbers();
    assert forall|k: int| 0 <= k < t.len() implies is_numeric_char(#[trigger] t[k]) && in_class(
        Class::Alnum,
        t[k],
    ) by {}
    lemma_token_stands(s, p, t);
    assert forall|i: int| p <= i < p + t.len() implies in_class(Class::Alnum, #[trigger] s[i]) by {
        assert(s[p + (i - p)] == t[i - p]);
        assert(in_class(Class::Alnum, t[i - p]));
    }
    lemma_run_end_is(Class::Alnum, s, p, p + t.len());
    lemma_stands_subrange(s, p, t);
    assert(s[p + 0] == t[0]);
    lemma_no_brace(s, p0, p, depth);
    assert(string(s, p0) == Parsed::<Seq<char>>::Miss(Rule::Quote, p));
    assert(integer(s, p0) == Parsed::<i64>::Miss(Rule::Value, p));
    assert(float(s, p0) == Parsed::<Seq<char>>::Miss(Rule::Value, p));
    assert(boolean(s, p0) == Parsed::Hit(b, skip_spaces(s, p + t.len())));
}

/// Where a text stands in a larger one, a run that ends inside the text ends
/// at the same place in the larger one.
pub proof fn lemma_run_window(k: Class, s: Seq<char>, b: int, q: Seq<char>, from: int)
    requires
        stands_at(s, b, q),
        0 <= from <= q.len(),
        run_end(k, q, from) < q.len(),
    ensures
        run_end(k, s, b + from) == b + run_end(k, q, from),
{
    let r = run_end(k, q, from);
    lemma_run_end(k, q, from);
    assert forall|i: int| b + from <= i < b + r implies in_class(k, #[trigger] s[i]) by {
        assert(s[b + (i - b)] == q[i - b]);
        assert(in_class(k, q[i - b]));
    }
    assert(s[b + r] == q[r]);
    lemma_run_end_is(k, s, b + from, b + r);
}

/// Where the position after the characters of a key and the whitespace
/// behind them lies, from `b` on.
pub open spec fn key_gap(s: Seq<char>, b: int) -> int {
    skip_spaces(s, run_end(Class::Key, s, b))
}

/// What stands behind a value of a list: a space and the closing brace, or a
/// comma, a line feed and a character that can begin a value.
pub open spec fn list_goes_on(s: Seq<char>, e: int) -> bool {
    &&& 0 <= e
    &&& e + 1 < s.len()
    &&& {
        ||| (s[e] == ' ' && s[e + 1] == '}')
        ||| (s[e] == ',' && s[e + 1] == '\n' && e + 2 < s.len() && leads(s[e + 2]))
    }
}

/// Behind a text of key characters in a list, no equal sign follows.
pub proof fn lemma_gap_after_key_chars(s: Seq<char>, b: int, t: Seq<char>)
    requires
        stands_at(s, b, t),
        forall|k: int| 0 <= k < t.len() ==> in_class(Class::Key, #[trigger] t[k]),
        list_goes_on(s, b + t.len()),
    ensures
        key_gap(s, b) < s.len(),
        s[key_gap(s, b)] != '=',
{
    let e = b + t.len();
    assert forall|i: int| b <= i < e implies in_class(Class::Key, #[trigger] s[i]) by {
        assert(s[b + (i - b)] == t[i - b]);
        assert(in_class(Class::Key, t[i - b]));
    }
    if s[e] == ' ' {
        lemma_run_end_is(Class::Key, s, b, e);
        lemma_skip_to(s, e, e + 1);
    } else {
        lemma_run_end_is(Class::Key, s, b, e + 1);
        lemma_skip_to(s, e + 1, e + 2);
    }
}

/// Behind an opening brace and one whitespace character (the start of a
/// collection's text), no equal sign follows where none stands there.
pub proof fn lemma_gap_after_brace(s: Seq<char>, b: int)
    requires
        0 <= b,
        b + 2 < s.len(),
        s[b] == '{',
        is_space(s[b + 1]),
        !is_space(s[b + 2]),
        s[b + 2] != '=',
    ensures
        key_gap(s, b) == b + 2,
{
    lemma_run_end_is(Class::Key, s, b, b + 1);
    lemma_skip_to(s, b + 1, b + 2);
}

/// Behind a quoted string in a list whose text does not begin like an entry
/// of a mapping, no equal sign follows.
pub proof fn lemma_gap_after_string(s: Seq<char>, b: int, t: Seq<char>)
    requires
        stands_at(s, b, quoted(t)),
        !begins_like_pair(quoted(t)),
        list_goes_on(s, b + quoted(t).len()),
    ensures
        key_gap(s, b) < s.len(),
        s[key_gap(s, b)] != '=',
{
    reveal_strlit("\"");
    let q = quoted(t);
    let j = run_end(Class::Key, q, 0);
    lemma_run_end(Class::Key, q, 0);
    assert(q[q.len() - 1] == '"');
    if j < q.len() {
        lemma_run_window(Class::Key, s, b, q, 0);
        let m = skip_spaces(q, j);
        lemma_run_end(Class::Space, q, j);
        if m == q.len() {
            assert(in_class(Class::Space, q[q.len() - 1]));
        }
        lemma_run_window(Class::Space, s, b, q, j);
        assert(s[b + m] == q[m]);
    } else {
        lemma_gap_after_key_chars(s, b, q);
    }
}

/// The parser takes the text of a list for no mapping.
pub proof fn lemma_list_is_no_mapping(
    s: Seq<char>,
    p0: int,
    p: int,
    vs: Seq<ValueView>,
    info: Info,
    depth: nat,
)
    requires
        faithful(ValueView::Values(vs), depth),
        0 <= p0 <= p,
        skip_spaces(s, p0) == p,
        stands_at(s, p, render(ValueView::Values(vs), info)),
    ensures
        structure(s, p0, depth) == Parsed::<ValueView>::Miss(Rule::Close, p + 2),
        unit(s, p0) == Parsed::<()>::Miss(Rule::Close, p + 2),
        opening(s, p0) == Parsed::Hit((), p + 2),
{
    reveal_strlit(" }");
    reveal_strlit("{ }");
    reveal_strlit("\"");
    let inner = info.inner();
    let n = vs.len();
    let parts = item_texts(vs, inner);
    let body = render_items(vs, inner, n);
    let d = (depth - 1) as nat;
    lemma_opener(info);
    lemma_items_joined(vs, inner, n);
    assert(render(ValueView::Values(vs), info) =~= opener(info) + (body + " }"@));
    lemma_stands_split(s, p, opener(info), body + " }"@);
    lemma_stands_split(s, p + 2, body, " }"@);
    let base = p + 2;
    let end = base + body.len();
    assert(s[p + 0] == opener(info)[0] && s[p + 1] == opener(info)[1]);
    assert(s[end + 0] == " }"@[0] && s[end + 1] == " }"@[1]);
    lemma_joined_part(s, base, parts, n, 0);
    let first = parts[0];
    assert(first == render(vs[0], inner));
    lemma_render_leads(vs[0], inner, d);
    assert(s[base + 0] == first[0]);
    lemma_skip_to(s, p + 1, base);
    lemma_skip_to(s, base, base);
    let e = base + first.len();
    // What stands behind the first value.
    if n > 1 {
        lemma_joined_part(s, base, parts, n, 1);
        lemma_render_leads(vs[1], inner, d);
        assert(parts[1] == render(vs[1], inner));
        assert(s[base + part_start(parts, 1) + 0] == parts[1][0]);
        assert(joined(parts, 1) == first);
    } else {
        assert(joined(parts, 1) == first);
    }
    assert(list_goes_on(s, e));
    // No equal sign follows what would be the key.
    assert(faithful(vs[0], d));
    match vs[0] {
        ValueView::Unit => {
            assert(s[base + 1] == first[1] && s[base + 2] == first[2]);
            lemma_gap_after_brace(s, base);
        },
        ValueView::Int(i) => {
            lemma_int_text(i);
            assert forall|k: int| 0 <= k < first.len() implies in_class(
                Class::Key,
                #[trigger] first[k],
            ) by {
                assert(is_numeric_char(first[k]));
            }
            lemma_gap_after_key_chars(s, base, first);
        },
        ValueView::Float(t) => {
            lemma_float_chars(t);
            assert forall|k: int| 0 <= k < first.len() implies in_class(
                Class::Key,
                #[trigger] first[k],
            ) by {
                assert(is_numeric_char(first[k]));
            }
            lemma_gap_after_key_chars(s, base, first);
        },
        ValueView::Bool(b) => {
            reveal_strlit("true");
            reveal_strlit("false");
            assert forall|k: int| 0 <= k < first.len() implies in_class(
                Class::Key,
                #[trigger] first[k],
            ) by {}
            lemma_gap_after_key_chars(s, base, first);
        },
        ValueView::String(t) => {
            lemma_gap_after_string(s, base, t);
        },
        ValueView::Values(ws) => {
            lemma_nested_begins(s, base, vs[0], inner, d);
            lemma_gap_after_brace(s, base);
        },
        ValueView::Struct(ps) => {
            lemma_nested_begins(s, base, vs[0], inner, d);
            lemma_gap_after_brace(s, base);
        },
    }
    let g = key_gap(s, base);
    lemma_run_end(Class::Key, s, base);
    lemma_run_end(Class::Space, s, run_end(Class::Key, s, base));
    lemma_skip_to(s, g, g);
    assert(equal_sign(s, g) == Parsed::<()>::Miss(Rule::Equals, g));
    assert(in_class(Class::Key, s[base]));
    assert(key(s, base) is Hit);
    assert(pair(s, base, d) == Parsed::<(Seq<char>, ValueView)>::Miss(Rule::Equals, g));
    assert(pairs(s, base, d, true) == Parsed::Hit(Seq::<(Seq<char>, ValueView)>::empty(), base));
    assert(separator(s, base) is Miss);
    assert(closing(s, base) == Parsed::<()>::Miss(Rule::Close, base));
}

/// The text of a collection that can be read back begins with an opening
/// brace, one whitespace character and a character that is neither
/// whitespace nor an equal sign.
pub proof fn lemma_nested_begins(s: Seq<char>, b: int, v: ValueView, info: Info, depth: nat)
    requires
        faithful(v, depth),
        v is Values || v is Struct,
        stands_at(s, b, render(v, info)),
    ensures
        0 <= b,
        b + 2 < s.len(),
        s[b] == '{',
        is_space(s[b + 1]),
        !is_space(s[b + 2]),
        s[b + 2] != '=',
        s[b + 2] != '}',
{
    reveal_strlit(" }");
    let inner = info.inner();
    let d = (depth - 1) as nat;
    lemma_opener(info);
    lemma_closer(info);
    let t = render(v, info);
    match v {
        ValueView::Values(vs) => {
            let body = render_items(vs, inner, vs.len());
            lemma_items_joined(vs, inner, vs.len());
            let parts = item_texts(vs, inner);
            assert(t =~= opener(info) + (body + " }"@));
            lemma_stands_split(s, b, opener(info), body + " }"@);
            lemma_stands_split(s, b + 2, body, " }"@);
            lemma_joined_part(s, b + 2, parts, vs.len(), 0);
            lemma_render_leads(vs[0], inner, d);
            assert(parts[0] == render(vs[0], inner));
            assert(s[b + 2 + 0] == parts[0][0]);
            assert(s[b + 0] == opener(info)[0] && s[b + 1] == opener(info)[1]);
        },
        ValueView::Struct(ps) => {
            let body = render_pairs(ps, inner, ps.len());
            lemma_pairs_joined(ps, inner, ps.len());
            let parts = pair_texts(ps, inner);
            assert(t =~= opener(info) + (body + closer(info)));
            lemma_stands_split(s, b, opener(info), body + closer(info));
            lemma_stands_split(s, b + 2, body, closer(info));
            lemma_joined_part(s, b + 2, parts, ps.len(), 0);
            let k = ps[0].0;
            assert(plain_key(k));
            assert(parts[0] == render_pair(k, ps[0].1, inner));
            assert(parts[0][0] == k[0]);
            assert(in_class(Class::Key, k[0]));
            assert(s[b + 2 + 0] == parts[0][0]);
            assert(s[b + 0] == opener(info)[0] && s[b + 1] == opener(info)[1]);
        },
        _ => {},
    }
}

/// Pairs with keys that differ from each other make the mapping that holds
/// them in the same order.
pub proof fn lemma_collected_distinct(ps: Seq<(Seq<char>, ValueView)>)
    requires
        distinct_keys(ps),
    ensures
        collected(ps) == ps,
    decreases ps.len(),
{
    if ps.len() > 0 {
        let front = ps.drop_last();
        assert forall|i: int, j: int| 0 <= i < j < front.len() implies (#[trigger] front[i]).0 != (
        #[trigger] front[j]).0 by {
            assert(front[i] == ps[i] && front[j] == ps[j]);
        }
        lemma_collected_distinct(front);
        crate::types::lemma_position_of(front, ps.last().0);
        if position_of(front, ps.last().0) is Some {
            let i = position_of(front, ps.last().0)->0;
            assert(front[i] == ps[i]);
            assert(ps[i].0 != ps[ps.len() - 1].0);
        }
        assert(front.push((ps.last().0, ps.last().1)) =~= ps);
    } else {
        assert(collected(ps) =~= ps);
    }
}

/// The parser reads a value back from its text: where the text of a value
/// that can be read back stands behind optional whitespace, and a comma, a
/// space, a line feed or the end of the whole follows, the value rule gives
/// the value and the position behind the whitespace that follows.
pub proof fn lemma_value(s: Seq<char>, p0: int, p: int, v: ValueView, info: Info, depth: nat)
    requires
        faithful(v, depth),
        0 <= p0 <= p,
        skip_spaces(s, p0) == p,
        stands_at(s, p, render(v, info)),
        follows(s, p + render(v, info).len()),
    ensures
        value(s, p0, depth) == Parsed::Hit(v, skip_spaces(s, p + render(v, info).len())),
    decreases v, 2nat, 0nat,
{
    match v {
        ValueView::Unit => {
            reveal_strlit("{ }");
            lemma_value_unit(s, p0, p, depth);
        },
        ValueView::Int(i) => {
            lemma_value_int(s, p0, p, i, depth);
        },
        ValueView::Float(t) => {
            lemma_value_float(s, p0, p, t, depth);
        },
        ValueView::Bool(b) => {
            lemma_value_bool(s, p0, p, b, depth);
        },
        ValueView::String(t) => {
            lemma_value_string(s, p0, p, t, depth);
        },
        ValueView::Values(vs) => {
            lemma_value_list(s, p0, p, vs, info, depth);
        },
        ValueView::Struct(ps) => {
            lemma_value_struct(s, p0, p, ps, info, depth);
        },
    }
}

/// The parser reads a list back from its text.
pub proof fn lemma_value_list(
    s: Seq<char>,
    p0: int,
    p: int,
    vs: Seq<ValueView>,
    info: Info,
    depth: nat,
)
    requires
        faithful(ValueView::Values(vs), depth),
        0 <= p0 <= p,
        skip_spaces(s, p0) == p,
        stands_at(s, p, render(ValueView::Values(vs), info)),
    ensures
        value(s, p0, depth) == Parsed::Hit(
            ValueView::Values(vs),
            skip_spaces(s, p + render(ValueView::Values(vs), info).len()),
        ),
    decreases vs, 1nat, 0nat,
{
    reveal_strlit(" }");
    let inner = info.inner();
    let n = vs.len();
    let body = render_items(vs, inner, n);
    let d = (depth - 1) as nat;
    let base = p + 2;
    let end = base + body.len();
    lemma_opener(info);
    lemma_list_is_no_mapping(s, p0, p, vs, info, depth);
    assert(render(ValueView::Values(vs), info) =~= opener(info) + (body + " }"@));
    lemma_stands_split(s, p, opener(info), body + " }"@);
    lemma_stands_split(s, base, body, " }"@);
    assert(s[p + 0] == opener(info)[0]);
    assert(s[end + 0] == " }"@[0] && s[end + 1] == " }"@[1]);
    lemma_no_number(s, p0, p);
    lemma_run_end_is(Class::Alnum, s, p, p);
    assert(string(s, p0) == Parsed::<Seq<char>>::Miss(Rule::Quote, p));
    assert(boolean(s, p0) == Parsed::<bool>::Miss(Rule::Value, p));
    lemma_elements(s, base, vs, inner, d, 0, base);
    assert(vs.subrange(0, n as int) =~= vs);
    lemma_skip_to(s, end + 1, end + 1);
    assert(separator(s, end + 1) is Miss);
    assert(closing(s, end + 1) == Parsed::Hit((), skip_spaces(s, end + 2)));
    assert(list(s, p0, depth) == Parsed::Hit(ValueView::Values(vs), skip_spaces(s, end + 2)));
}

/// The parser reads the values of a list back from their text, from the
/// `i`-th on: `at` is where the list's text begins, for the first, and where
/// the comma before the value stands, for the others.
pub proof fn lemma_elements(
    s: Seq<char>,
    base: int,
    vs: Seq<ValueView>,
    info: Info,
    depth: nat,
    i: nat,
    at: int,
)
    requires
        0 <= base,
        i < vs.len(),
        forall|j: int| 0 <= j < vs.len() ==> faithful(#[trigger] vs[j], depth),
        stands_at(s, base, render_items(vs, info, vs.len())),
        base + render_items(vs, info, vs.len()).len() + 1 < s.len(),
        s[base + render_items(vs, info, vs.len()).len()] == ' ' || s[base + render_items(
            vs,
            info,
            vs.len(),
        ).len()] == '\n',
        s[base + render_items(vs, info, vs.len()).len() + 1] == '}',
        at == base + (if i == 0 {
            0
        } else {
            render_items(vs, info, i).len() as int
        }),
    ensures
        elements(s, at, depth, i == 0) == Parsed::Hit(
            vs.subrange(i as int, vs.len() as int),
            base + render_items(vs, info, vs.len()).len() + 1,
        ),
    decreases vs, 0nat, vs.len() - i,
{
    let n = vs.len();
    let parts = item_texts(vs, info);
    let total = render_items(vs, info, n).len();
    lemma_items_joined(vs, info, n);
    lemma_items_joined(vs, info, i);
    lemma_items_joined(vs, info, i + 1);
    lemma_joined_part(s, base, parts, n, i);
    let text = render(vs[i as int], info);
    assert(parts[i as int] == text);
    let start = base + part_start(parts, i);
    let e0 = start + text.len();
    lemma_render_leads(vs[i as int], info, depth);
    assert(s[start + 0] == text[0]);
    lemma_skip_to(s, start, start);
    if i > 0 {
        lemma_skip_to(s, at, at);
        lemma_skip_to(s, at + 1, start);
        assert(separator(s, at) == Parsed::Hit((), start));
    }
    if i + 1 < n {
        lemma_joined_part(s, base, parts, n, i + 1);
        assert(s[e0] == ',');
        lemma_skip_to(s, e0, e0);
        lemma_value(s, start, start, vs[i as int], info, depth);
        lemma_elements(s, base, vs, info, depth, i + 1, e0);
        assert(seq![vs[i as int]] + vs.subrange(i as int + 1, n as int) =~= vs.subrange(
            i as int,
            n as int,
        ));
    } else {
        assert(e0 == base + total);
        lemma_skip_to(s, e0, e0 + 1);
        lemma_value(s, start, start, vs[i as int], info, depth);
        lemma_skip_to(s, e0 + 1, e0 + 1);
        assert(separator(s, e0 + 1) is Miss);
        assert(elements(s, e0 + 1, depth, false) == Parsed::Hit(
            Seq::<ValueView>::empty(),
            e0 + 1,
        ));
        assert(seq![vs[i as int]] + Seq::<ValueView>::empty() =~= vs.subrange(
            i as int,
            n as int,
        ));
    }
}

/// The parser reads a mapping back from its text.
pub proof fn lemma_value_struct(
    s: Seq<char>,
    p0: int,
    p: int,
    ps: Seq<(Seq<char>, ValueView)>,
    info: Info,
    depth: nat,
)
    requires
        faithful(ValueView::Struct(ps), depth),
        0 <= p0 <= p,
        skip_spaces(s, p0) == p,
        stands_at(s, p, render(ValueView::Struct(ps), info)),
    ensures
        value(s, p0, depth) == Parsed::Hit(
            ValueView::Struct(ps),
            skip_spaces(s, p + render(ValueView::Struct(ps), info).len()),
        ),
    decreases ps, 1nat, 0nat,
{
    let inner = info.inner();
    let n = ps.len();
    let body = render_pairs(ps, inner, n);
    let d = (depth - 1) as nat;
    let base = p + 2;
    let end = base + body.len();
    lemma_opener(info);
    lemma_closer(info);
    lemma_nested_begins(s, p, ValueView::Struct(ps), info, depth);
    assert(render(ValueView::Struct(ps), info) =~= opener(info) + (body + closer(info)));
    lemma_stands_split(s, p, opener(info), body + closer(info));
    lemma_stands_split(s, base, body, closer(info));
    assert(s[end + 0] == closer(info)[0] && s[end + 1] == closer(info)[1]);
    lemma_skip_to(s, p + 1, base);
    lemma_skip_to(s, base, base);
    assert(opening(s, p0) == Parsed::Hit((), base));
    assert(unit(s, p0) == Parsed::<()>::Miss(Rule::Close, base));
    lemma_pairs(s, base, ps, inner, d, 0, base);
    assert(ps.subrange(0, n as int) =~= ps);
    lemma_skip_to(s, end + 1, end + 1);
    assert(separator(s, end + 1) is Miss);
    assert(closing(s, end + 1) == Parsed::Hit((), skip_spaces(s, end + 2)));
    lemma_collected_distinct(ps);
    assert(structure(s, p0, depth) == Parsed::Hit(
        ValueView::Struct(ps),
        skip_spaces(s, end + 2),
    ));
}

/// The parser reads an entry back from its text.
pub proof fn lemma_pair(
    s: Seq<char>,
    start: int,
    k: Seq<char>,
    v: ValueView,
    info: Info,
    depth: nat,
)
    requires
        plain_key(k),
        faithful(v, depth),
        stands_at(s, start, render_pair(k, v, info)),
        follows(s, start + render_pair(k, v, info).len()),
    ensures
        pair(s, start, depth) == Parsed::Hit(
            (k, v),
            skip_spaces(s, start + render_pair(k, v, info).len()),
        ),
    decreases v, 3nat, 0nat,
{
    reveal_strlit(" = ");
    let text = render(v, info);
    assert(render_pair(k, v, info) =~= k + (" = "@ + text));
    lemma_stands_split(s, start, k, " = "@ + text);
    lemma_stands_split(s, start + k.len(), " = "@, text);
    let gap = start + k.len();
    let vstart = gap + 3;
    assert(s[gap + 0] == " = "@[0] && s[gap + 1] == " = "@[1] && s[gap + 2] == " = "@[2]);
    lemma_render_leads(v, info, depth);
    assert(s[vstart + 0] == text[0]);
    assert(s[start + 0] == k[0]);
    assert(in_class(Class::Key, k[0]));
    lemma_skip_to(s, start, start);
    assert forall|j: int| start <= j < gap implies in_class(Class::Key, #[trigger] s[j]) by {
        assert(s[start + (j - start)] == k[j - start]);
        assert(in_class(Class::Key, k[j - start]));
    }
    lemma_run_end_is(Class::Key, s, start, gap);
    lemma_stands_subrange(s, start, k);
    lemma_skip_to(s, gap, gap + 1);
    assert(key(s, start) == Parsed::Hit(k, gap + 1));
    lemma_skip_to(s, gap + 1, gap + 1);
    lemma_skip_to(s, gap + 2, vstart);
    assert(equal_sign(s, gap + 1) == Parsed::Hit((), vstart));
    lemma_skip_to(s, vstart, vstart);
    lemma_value(s, vstart, vstart, v, info, depth);
}

/// The parser reads the entries of a mapping back from their text, from the
/// `i`-th on: `at` is where the mapping's text begins, for the first, and
/// where the comma before the entry stands, for the others.
pub proof fn lemma_pairs(
    s: Seq<char>,
    base: int,
    ps: Seq<(Seq<char>, ValueView)>,
    info: Info,
    depth: nat,
    i: nat,
    at: int,
)
    requires
        0 <= base,
        i < ps.len(),
        forall|j: int|
            0 <= j < ps.len() ==> plain_key((#[trigger] ps[j]).0) && faithful(ps[j].1, depth),
        stands_at(s, base, render_pairs(ps, info, ps.len())),
        base + render_pairs(ps, info, ps.len()).len() + 1 < s.len(),
        s[base + render_pairs(ps, info, ps.len()).len()] == ' ' || s[base + render_pairs(
            ps,
            info,
            ps.len(),
        ).len()] == '\n',
        s[base + render_pairs(ps, info, ps.len()).len() + 1] == '}',
        at == base + (if i == 0 {
            0
        } else {
            render_pairs(ps, info, i).len() as int
        }),
    ensures
        pairs(s, at, depth, i == 0) == Parsed::Hit(
            ps.subrange(i as int, ps.len() as int),
            base + render_pairs(ps, info, ps.len()).len() + 1,
        ),
    decreases ps, 0nat, ps.len() - i,
{
    let n = ps.len();
    let parts = pair_texts(ps, info);
    let total = render_pairs(ps, info, n).len();
    lemma_pairs_joined(ps, info, n);
    lemma_pairs_joined(ps, info, i);
    lemma_pairs_joined(ps, info, i + 1);
    lemma_joined_part(s, base, parts, n, i);
    let k = ps[i as int].0;
    let v = ps[i as int].1;
    assert(plain_key(k) && faithful(v, depth));
    let text = render_pair(k, v, info);
    assert(parts[i as int] == text);
    let start = base + part_start(parts, i);
    let e0 = start + text.len();
    assert(text[0] == k[0]);
    assert(s[start + 0] == text[0]);
    assert(in_class(Class::Key, k[0]));
    if i > 0 {
        lemma_skip_to(s, at, at);
        lemma_skip_to(s, at + 1, start);
        assert(separator(s, at) == Parsed::Hit((), start));
    }
    if i + 1 < n {
        lemma_joined_part(s, base, parts, n, i + 1);
        assert(s[e0] == ',');
        lemma_skip_to(s, e0, e0);
        lemma_pair(s, start, k, v, info, depth);
        lemma_pairs(s, base, ps, info, depth, i + 1, e0);
        assert(seq![(k, v)] + ps.subrange(i as int + 1, n as int) =~= ps.subrange(
            i as int,
            n as int,
        ));
    } else {
        assert(e0 == base + total);
        lemma_skip_to(s, e0, e0 + 1);
        lemma_pair(s, start, k, v, info, depth);
        lemma_skip_to(s, e0 + 1, e0 + 1);
        assert(separator(s, e0 + 1) is Miss);
        assert(pairs(s, e0 + 1, depth, false) == Parsed::Hit(
            Seq::<(Seq<char>, ValueView)>::empty(),
            e0 + 1,
        ));
        assert(seq![(k, v)] + Seq::<(Seq<char>, ValueView)>::empty() =~= ps.subrange(
            i as int,
            n as int,
        ));
    }
}

/// The parser reads a document back from its text: parsing inverts
/// composing, on every document that can be read back.
pub proof fn lemma_parse_inverts_compose(d: AgprefView)
    requires
        canonical(d),
    ensures
        document(render_document(d)) == Ok::<AgprefView, crate::errors::Errors>(d),
{
    reveal_strlit("\n");
    let root = Info::root();
    let entry = render_pair(d.name, d.values, root);
    let s = render_document(d);
    assert(s =~= entry + "\n"@);
    assert(stands_at(s, 0, entry)) by {
        assert forall|i: int| 0 <= i < entry.len() implies s[0 + i] == #[trigger] entry[i] by {}
    }
    let e0 = entry.len() as int;
    assert(s[e0] == "\n"@[0]);
    lemma_skip_to(s, e0, e0 + 1);
    lemma_pair(s, 0, d.name, d.values, root, MAX_DEPTH as nat);
}

/// Composing what was parsed gives the text back, byte for byte: this holds
/// of every text that the composer writes of a document that can be read
/// back.
pub proof fn lemma_round_trip(t: Seq<char>, d: AgprefView)
    requires
        canonical(d),
        t == render_document(d),
    ensures
        document(t) matches Ok(parsed) && render_document(parsed) == t,
{
    lemma_parse_inverts_compose(d);
}

/// Whether the text of a value leaves no doubt: its collections are not
/// empty, the first key of a mapping does not begin with `}`, and where the
/// first value of a list is a string, its text does not begin like an entry
/// of a mapping.
pub open spec fn readable(v: ValueView) -> bool
    decreases v,
{
    match v {
        ValueView::Values(vs) => {
            &&& vs.len() > 0
            &&& forall|i: int| 0 <= i < vs.len() ==> readable(#[trigger] vs[i])
            &&& (vs[0] matches ValueView::String(t) ==> !begins_like_pair(quoted(t)))
        },
        ValueView::Struct(ps) => {
            &&& ps.len() > 0
            &&& ps[0].0.len() > 0 ==> ps[0].0[0] != '}'
            &&& forall|i: int| 0 <= i < ps.len() ==> readable((#[trigger] ps[i]).1)
        },
        _ => true,
    }
}

/// A value that the parser can return and whose text leaves no doubt can be
/// read back.
pub proof fn lemma_faithful(v: ValueView, depth: nat)
    requires
        well_formed(v, depth),
        readable(v),
    ensures
        faithful(v, depth),
    decreases v,
{
    match v {
        ValueView::Values(vs) => {
            assert forall|i: int| 0 <= i < vs.len() implies faithful(
                #[trigger] vs[i],
                (depth - 1) as nat,
            ) by {
                assert(well_formed(vs[i], (depth - 1) as nat));
                assert(readable(vs[i]));
                lemma_faithful(vs[i], (depth - 1) as nat);
            }
        },
        ValueView::Struct(ps) => {
            assert forall|i: int| 0 <= i < ps.len() implies plain_key((#[trigger] ps[i]).0)
                && faithful(ps[i].1, (depth - 1) as nat) by {
                assert(plain_key(ps[i].0) && well_formed(ps[i].1, (depth - 1) as nat));
                assert(readable(ps[i].1));
                lemma_faithful(ps[i].1, (depth - 1) as nat);
            }
            assert(plain_key(ps[0].0));
        },
        _ => {},
    }
}

/// Composing, parsing and composing again gives what composing gave the
/// first time: this holds of every text that the parser accepts and whose
/// document leaves no doubt when it is written.
pub proof fn lemma_recompose(t: Seq<char>)
    requires
        document(t) matches Ok(d) && readable(d.values),
    ensures
        document(t) matches Ok(d) && document(render_document(d)) == Ok::<
            AgprefView,
            crate::errors::Errors,
        >(d),
{
    let d = document(t)->Ok_0;
    lemma_document_well_formed(t);
    lemma_faithful(d.values, MAX_DEPTH as nat);
    lemma_parse_inverts_compose(d);
}

/// The parser reads a value back from its text alone, however the text
/// was laid out.
pub proof fn lemma_value_round_trip(v: ValueView, info: Info, depth: nat)
    requires
        faithful(v, depth),
    ensures
        value(render(v, info), 0, depth) == Parsed::Hit(v, render(v, info).len() as int),
{
    let s = render(v, info);
    lemma_render_leads(v, info, depth);
    assert(stands_at(s, 0, s)) by {
        assert forall|i: int| 0 <= i < s.len() implies s[0 + i] == #[trigger] s[i] by {}
    }
    lemma_skip_to(s, 0, 0);
    lemma_skip_to(s, s.len() as int, s.len() as int);
    lemma_value(s, 0, 0, v, info, depth);
}

/// The parser reads a named list back from the text of its document.
pub proof fn lemma_named_list_round_trip(name: Seq<char>, values: Seq<ValueView>)
    requires
        canonical(AgprefView { name, values: ValueView::Values(values) }),
    ensures
        crate::grammar::named_list(
            render_document(AgprefView { name, values: ValueView::Values(values) }),
        ) == Some(crate::types::NamedListView { name, values }),
{
    lemma_parse_inverts_compose(AgprefView { name, values: ValueView::Values(values) });
}

/// Whether a text can be read back as a key.
pub fn is_plain_key(k: &str) -> (b: bool)
    ensures
        b == plain_key(k@),
{
    let cs = chars_of(k);
    let e = scan(Class::Key, &cs, 0);
    proof {
        lemma_run_end(Class::Key, cs@, 0);
    }
    cs.len() > 0 && e == cs.len()
}

/// Whether the text of a string begins like an entry of a mapping.
pub fn string_begins_like_pair(t: &str) -> (b: bool)
    ensures
        b == begins_like_pair(quoted(t@)),
{
    let mut text = String::new();
    text.push('"');
    let inside = escape_string(t);
    text.append(inside.as_str());
    text.push('"');
    proof {
        reveal_strlit("\"");
        assert(text@ =~= quoted(t@));
    }
    let cs = chars_of(text.as_str());
    let e = scan(Class::Key, &cs, 0);
    let m = scan(Class::Space, &cs, e);
    m < cs.len() && cs[m] == '='
}

/// Whether the keys of a mapping differ from each other.
pub fn has_distinct_keys(m: &OrderedMap) -> (b: bool)
    ensures
        b == distinct_keys(m@),
{
    let n = m.entries.len();
    let mut j: usize = 0;
    while j < n
        invariant
            j <= n == m.entries.len(),
            forall|a: int, c: int| 0 <= a < c < j ==> (#[trigger] m@[a]).0 != (#[trigger] m@[c]).0,
        decreases n - j,
    {
        let mut i: usize = 0;
        while i < j
            invariant
                i <= j < n == m.entries.len(),
                forall|a: int| 0 <= a < i ==> (#[trigger] m@[a]).0 != m@[j as int].0,
            decreases j - i,
        {
            if m.entries[i].0 == m.entries[j].0 {
                proof {
                    assert(m@[i as int].0 == m@[j as int].0);
                }
                return false;
            }
            assert(m@[i as int].0 != m@[j as int].0);
            i += 1;
        }
        j += 1;
    }
    true
}

impl Value {
    /// Whether the parser gives the value back from its text, where
    /// collections may be nested `depth` deep.
    pub fn can_be_read_back(&self, depth: usize) -> (b: bool)
        ensures
            b == faithful(self@, depth as nat),
        decreases self, 1nat,
    {
        match self {
            Value::Unit => true,
            Value::Int(_) => true,
            Value::Bool(_) => true,
            Value::String(_) => true,
            Value::Float(t) => {
                let cs = chars_of(t.as_str());
                is_float_token(&cs) && parse_int(&cs).is_none()
            },
            Value::Values(vs) => {
                proof {
                    lemma_view_values(*vs);
                }
                if depth == 0 || vs.len() == 0 {
                    return false;
                }
                let first_is_clear = match &vs[0] {
                    Value::String(t) => !string_begins_like_pair(t.as_str()),
                    _ => true,
                };
                first_is_clear && items_can_be_read_back(vs, depth - 1)
            },
            Value::Struct(m) => {
                proof {
                    lemma_view_struct(*m);
                }
                if depth == 0 || m.entries.len() == 0 || !has_distinct_keys(m) {
                    return false;
                }
                if !entries_can_be_read_back(&m.entries, depth - 1) {
                    proof {
                        let j = choose|j: int|
                            0 <= j < m.entries@.len() && !(plain_key(
                                (#[trigger] m.entries@[j]).0@,
                            ) && faithful(m.entries@[j].1@, (depth - 1) as nat));
                        assert(m@[j].0 == m.entries@[j].0@ && m@[j].1 == m.entries@[j].1@);
                    }
                    return false;
                }
                proof {
                    assert forall|j: int| 0 <= j < m@.len() implies plain_key((#[trigger] m@[j]).0)
                        && faithful(m@[j].1, (depth - 1) as nat) by {
                        assert(plain_key(m.entries@[j].0@));
                    }
                    assert(plain_key(m@[0].0));
                }
                let first = chars_of(m.entries[0].0.as_str());
                first[0] != '}'
            },
        }
    }
}

/// Whether the parser gives each of some values back from its text.
fn items_can_be_read_back(vs: &Vec<Value>, depth: usize) -> (b: bool)
    ensures
        b == (forall|j: int|
            0 <= j < vs@.len() ==> faithful(#[trigger] view_all(vs@)[j], depth as nat)),
    decreases vs, 0nat,
{
    let mut i: usize = 0;
    while i < vs.len()
        invariant
            i <= vs.len(),
            forall|j: int| 0 <= j < i ==> faithful(#[trigger] view_all(vs@)[j], depth as nat),
        decreases vs.len() - i,
    {
        proof {
            vstd::std_specs::vec::axiom_vec_index_decreases(*vs, i as int);
        }
        if !vs[i].can_be_read_back(depth) {
            proof {
                assert(!faithful(view_all(vs@)[i as int], depth as nat));
            }
            return false;
        }
        i += 1;
    }
    true
}

/// Whether each of some entries has a key that can be read back as a key
/// and a value that the parser gives back from its text.
fn entries_can_be_read_back(es: &Vec<(String, Value)>, depth: usize) -> (b: bool)
    ensures
        b == (forall|j: int|
            0 <= j < es@.len() ==> plain_key((#[trigger] es@[j]).0@) && faithful(
                es@[j].1@,
                depth as nat,
            )),
    decreases es, 0nat,
{
    let mut i: usize = 0;
    while i < es.len()
        invariant
            i <= es.len(),
            forall|j: int|
                0 <= j < i ==> plain_key((#[trigger] es@[j]).0@) && faithful(
                    es@[j].1@,
                    depth as nat,
                ),
        decreases es.len() - i,
    {
        proof {
            vstd::std_specs::vec::axiom_vec_index_decreases(*es, i as int);
        }
        if !is_plain_key(es[i].0.as_str()) || !es[i].1.can_be_read_back(depth) {
            proof {
                assert(!(plain_key(es@[i as int].0@) && faithful(es@[i as int].1@, depth as nat)));
            }
            return false;
        }
        i += 1;
    }
    true
}

impl Agpref {
    /// Whether the parser gives the document back from its text.
    pub fn can_be_read_back(&self) -> (b: bool)
        ensures
            b == canonical(self@),
    {
        is_plain_key(self.name.as_str()) && self.values.can_be_read_back(MAX_DEPTH)
    }
}

} // verus!
