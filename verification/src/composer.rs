//! The composer: how a document is written as text.
//!
//! A collection is written between braces, its entries separated by a comma
//! and a line feed. In the value of a document a line feed stands behind the
//! opening brace and, where it is a mapping, before the closing brace;
//! everywhere else a space stands inside each brace.

use crate::errors::Errors;
use crate::escape::{escape, escape_string};
use crate::number::{int_text, int_to_text};
use crate::types::{
    entries_view, lemma_view_struct, lemma_view_values, view_all, Agpref, AgprefView, NamedList,
    Value, ValueView,
};
use vstd::prelude::*;
use vstd::string::StringSliceAdditionalSpecFns;
use vstd::utf8::{decode_utf8, encode_utf8, valid_utf8};

verus! {

/// The error of a `cookie_factory` serializer, carried through unopened.
#[verifier::external_type_specification]
#[verifier::external_body]
pub struct ExGenError(cookie_factory::GenError);

/// The error of `String::from_utf8`, carried through unopened.
#[verifier::external_type_specification]
#[verifier::external_body]
pub struct ExFromUtf8Error(std::string::FromUtf8Error);

/// `String::from_utf8` turns a vector of bytes into a string: it checks that
/// the bytes are valid UTF-8, fails if they are not, and else gives the text
/// that they encode.
pub assume_specification[ std::string::String::from_utf8 ](vec: Vec<u8>) -> (r: Result<
    std::string::String,
    std::string::FromUtf8Error,
>)
    ensures
        valid_utf8(vec@) <==> r is Ok,
        r matches Ok(s) ==> s@ == decode_utf8(vec@),
;

/// Calls `cookie_factory::combinator::string` on a byte vector, through
/// `cookie_factory::gen_simple`: the bytes of `s` are written to the end of
/// the vector. The combinator fails only where the sink's `write` fails or
/// takes fewer bytes than it was given, and a byte vector's `write` appends
/// all of them.
#[verifier::external_body]
fn put(buf: Vec<u8>, s: &str) -> (r: Result<Vec<u8>, cookie_factory::GenError>)
    ensures
        r is Ok,
        r matches Ok(b) ==> b@ == buf@ + s.spec_bytes(),
{
    cookie_factory::gen_simple(cookie_factory::combinator::string(s), buf)
}

/// How a value is laid out.
#[derive(Debug, Clone, Copy)]
pub struct Info {
    /// Whether the braces of a collection stand on lines of their own.
    pub newline: bool,
    /// Whether nested collections are laid out in the same way.
    pub inherit: bool,
    /// How many levels of nested collections are laid out in the same way.
    pub depth: usize,
}

impl Default for Info {
    fn default() -> (info: Self)
        ensures
            info == (Info { newline: false, inherit: false, depth: 0 }),
    {
        Info { newline: false, inherit: false, depth: 0 }
    }
}

impl Info {
    /// How the entries of a collection are laid out that is itself laid out
    /// by `self`.
    pub open spec fn inner(self) -> Info {
        Info {
            newline: if self.depth > 0 {
                self.newline
            } else {
                false
            },
            inherit: if self.depth > 0 {
                self.inherit
            } else {
                false
            },
            depth: if self.depth > 1 {
                (self.depth - 1) as usize
            } else {
                0
            },
        }
    }

    /// How the value of a document is laid out.
    pub open spec fn root() -> Info {
        Info { newline: true, inherit: false, depth: 0 }
    }

    /// How the entries of a collection are laid out that is itself laid out
    /// by `self`.
    pub fn nested(self) -> (info: Info)
        ensures
            info == self.inner(),
    {
        Info {
            newline: if self.depth > 0 {
                self.newline
            } else {
                false
            },
            inherit: if self.depth > 0 {
                self.inherit
            } else {
                false
            },
            depth: if self.depth > 1 {
                self.depth - 1
            } else {
                0
            },
        }
    }
}

/// The opening brace of a collection and what separates it from the first
/// entry.
pub open spec fn opener(info: Info) -> Seq<char> {
    if info.newline {
        "{\n"@
    } else {
        "{ "@
    }
}

/// The closing brace of a mapping and what separates it from the last entry.
pub open spec fn closer(info: Info) -> Seq<char> {
    if info.newline {
        "\n}"@
    } else {
        " }"@
    }
}

/// The text of a value.
pub open spec fn render(v: ValueView, info: Info) -> Seq<char>
    decreases v, 0nat,
{
    match v {
        ValueView::Unit => "{ }"@,
        ValueView::Int(i) => int_text(i),
        ValueView::Float(t) => t,
        ValueView::Bool(b) => if b {
            "true"@
        } else {
            "false"@
        },
        ValueView::String(s) => "\""@ + escape(s) + "\""@,
        ValueView::Values(vs) => opener(info) + render_items(vs, info.inner(), vs.len()) + " }"@,
        ValueView::Struct(ps) => opener(info) + render_pairs(ps, info.inner(), ps.len()) + closer(
            info,
        ),
    }
}

/// The text of the first `n` values of a list, with a comma and a line feed
/// between each two.
pub open spec fn render_items(vs: Seq<ValueView>, info: Info, n: nat) -> Seq<char>
    decreases vs, n,
{
    if n == 0 || n > vs.len() {
        Seq::empty()
    } else if n == 1 {
        render(vs[0], info)
    } else {
        render_items(vs, info, (n - 1) as nat) + ",\n"@ + render(vs[n - 1], info)
    }
}

/// The text of one entry of a mapping: the key, an equal sign between two
/// spaces, and the value.
pub open spec fn render_pair(k: Seq<char>, v: ValueView, info: Info) -> Seq<char>
    decreases v, 1nat,
{
    k + " = "@ + render(v, info)
}

/// The text of the first `n` entries of a mapping, with a comma and a line
/// feed between each two.
pub open spec fn render_pairs(ps: Seq<(Seq<char>, ValueView)>, info: Info, n: nat) -> Seq<char>
    decreases ps, n,
{
    if n == 0 || n > ps.len() {
        Seq::empty()
    } else if n == 1 {
        render_pair(ps[0].0, ps[0].1, info)
    } else {
        render_pairs(ps, info, (n - 1) as nat) + ",\n"@ + render_pair(
            ps[n - 1].0,
            ps[n - 1].1,
            info,
        )
    }
}

/// The text of a document: the name, an equal sign between two spaces, the
/// value and a line feed.
pub open spec fn render_document(d: AgprefView) -> Seq<char> {
    d.name + " = "@ + render(d.values, Info::root()) + "\n"@
}

/// The UTF-8 encoding of two texts, one after the other, is the encoding of
/// the first followed by that of the second.
pub proof fn lemma_encode_concat(a: Seq<char>, b: Seq<char>)
    ensures
        encode_utf8(a + b) == encode_utf8(a) + encode_utf8(b),
    decreases a.len(),
{
    if a.len() == 0 {
        assert(a + b =~= b);
        assert(encode_utf8(a) + encode_utf8(b) =~= encode_utf8(b));
    } else {
        assert((a + b).drop_first() =~= a.drop_first() + b);
        assert((a + b)[0] == a[0]);
        lemma_encode_concat(a.drop_first(), b);
        assert(encode_utf8(a + b) =~= encode_utf8(a) + encode_utf8(b));
    }
}

/// Writes `s` after the text that was written since the buffer held `base`.
fn emit(out: Vec<u8>, s: &str, Ghost(base): Ghost<Seq<u8>>, Ghost(text): Ghost<Seq<char>>) -> (r:
    Result<Vec<u8>, Errors>)
    requires
        out@ == base + encode_utf8(text),
    ensures
        r matches Ok(b) && b@ == base + encode_utf8(text + s@),
{
    proof {
        lemma_encode_concat(text, s@);
    }
    match put(out, s) {
        Ok(b) => {
            assert(b@ =~= base + encode_utf8(text + s@));
            Ok(b)
        },
        Err(_) => Err(Errors::Compose),
    }
}

/// Writes the text of `value`, laid out by `info`, to the end of `out`.
pub fn compose_value(value: &Value, info: Info, out: Vec<u8>) -> (r: Result<Vec<u8>, Errors>)
    ensures
        r matches Ok(b) && b@ == out@ + encode_utf8(render(value@, info)),
    decreases value, 1nat,
{
    let ghost base = out@;
    let ghost none = Seq::<char>::empty();
    proof {
        assert(encode_utf8(none) =~= Seq::<u8>::empty());
        assert(out@ =~= base + encode_utf8(none));
    }
    match value {
        Value::Unit => {
            proof {
                assert(none + "{ }"@ =~= "{ }"@);
            }
            emit(out, "{ }", Ghost(base), Ghost(none))
        },
        Value::Int(i) => {
            let text = int_to_text(*i);
            proof {
                assert(none + text@ =~= text@);
            }
            emit(out, text.as_str(), Ghost(base), Ghost(none))
        },
        Value::Float(t) => {
            proof {
                assert(none + t@ =~= t@);
            }
            emit(out, t.as_str(), Ghost(base), Ghost(none))
        },
        Value::Bool(b) => {
            proof {
                assert(none + "true"@ =~= "true"@);
                assert(none + "false"@ =~= "false"@);
            }
            if *b {
                emit(out, "true", Ghost(base), Ghost(none))
            } else {
                emit(out, "false", Ghost(base), Ghost(none))
            }
        },
        Value::String(s) => {
            let inside = escape_string(s.as_str());
            proof {
                assert(none + "\""@ =~= "\""@);
            }
            let out = emit(out, "\"", Ghost(base), Ghost(none))?;
            let out = emit(out, inside.as_str(), Ghost(base), Ghost("\""@))?;
            emit(out, "\"", Ghost(base), Ghost("\""@ + escape(s@)))
        },
        Value::Values(vs) => {
            proof {
                lemma_view_values(*vs);
            }
            let out = compose_items(vs, info, out)?;
            proof {
                lemma_encode_concat(
                    opener(info) + render_items(view_all(vs@), info.inner(), vs@.len()),
                    " }"@,
                );
            }
            Ok(out)
        },
        Value::Struct(m) => {
            proof {
                lemma_view_struct(*m);
            }
            let out = compose_pairs(&m.entries, info, out)?;
            proof {
                assert(entries_view(m.entries@) =~= m@);
            }
            Ok(out)
        },
    }
}

/// Writes a list between its braces.
fn compose_items(vs: &Vec<Value>, info: Info, out: Vec<u8>) -> (r: Result<Vec<u8>, Errors>)
    ensures
        r matches Ok(b) && b@ == out@ + encode_utf8(
            opener(info) + render_items(view_all(vs@), info.inner(), vs@.len()) + " }"@,
        ),
    decreases vs, 0nat,
{
    let ghost base = out@;
    let ghost none = Seq::<char>::empty();
    let ghost items = view_all(vs@);
    let inner = info.nested();
    proof {
        assert(encode_utf8(none) =~= Seq::<u8>::empty());
        assert(out@ =~= base + encode_utf8(none));
        assert(none + "{\n"@ =~= "{\n"@);
        assert(none + "{ "@ =~= "{ "@);
    }
    let mut out = if info.newline {
        emit(out, "{\n", Ghost(base), Ghost(none))?
    } else {
        emit(out, "{ ", Ghost(base), Ghost(none))?
    };
    let mut i: usize = 0;
    proof {
        assert(opener(info) + render_items(items, inner, 0) =~= opener(info));
    }
    while i < vs.len()
        invariant
            i <= vs.len(),
            items == view_all(vs@),
            inner == info.inner(),
            out@ == base + encode_utf8(opener(info) + render_items(items, inner, i as nat)),
        decreases vs.len() - i,
    {
        let ghost before = opener(info) + render_items(items, inner, i as nat);
        let ghost mut text = before;
        if i > 0 {
            out = emit(out, ",\n", Ghost(base), Ghost(before))?;
            proof {
                text = before + ",\n"@;
            }
        }
        proof {
            vstd::std_specs::vec::axiom_vec_index_decreases(*vs, i as int);
        }
        out = compose_value(&vs[i], inner, out)?;
        proof {
            let item = render(items[i as int], inner);
            lemma_encode_concat(text, item);
            assert(out@ =~= base + encode_utf8(text + item));
            assert(text + item =~= opener(info) + render_items(items, inner, (i + 1) as nat));
        }
        i += 1;
    }
    emit(out, " }", Ghost(base), Ghost(opener(info) + render_items(items, inner, items.len())))
}

/// Writes a mapping between its braces.
fn compose_pairs(es: &Vec<(String, Value)>, info: Info, out: Vec<u8>) -> (r: Result<
    Vec<u8>,
    Errors,
>)
    ensures
        r matches Ok(b) && b@ == out@ + encode_utf8(
            opener(info) + render_pairs(entries_view(es@), info.inner(), es@.len()) + closer(info),
        ),
    decreases es, 0nat,
{
    let ghost base = out@;
    let ghost none = Seq::<char>::empty();
    let ghost pairs = entries_view(es@);
    let inner = info.nested();
    proof {
        assert(encode_utf8(none) =~= Seq::<u8>::empty());
        assert(out@ =~= base + encode_utf8(none));
        assert(none + "{\n"@ =~= "{\n"@);
        assert(none + "{ "@ =~= "{ "@);
    }
    let mut out = if info.newline {
        emit(out, "{\n", Ghost(base), Ghost(none))?
    } else {
        emit(out, "{ ", Ghost(base), Ghost(none))?
    };
    let mut i: usize = 0;
    proof {
        assert(opener(info) + render_pairs(pairs, inner, 0) =~= opener(info));
    }
    while i < es.len()
        invariant
            i <= es.len(),
            pairs == entries_view(es@),
            inner == info.inner(),
            out@ == base + encode_utf8(opener(info) + render_pairs(pairs, inner, i as nat)),
        decreases es.len() - i,
    {
        let ghost before = opener(info) + render_pairs(pairs, inner, i as nat);
        let ghost mut text = before;
        if i > 0 {
            out = emit(out, ",\n", Ghost(base), Ghost(before))?;
            proof {
                text = before + ",\n"@;
            }
        }
        out = emit(out, es[i].0.as_str(), Ghost(base), Ghost(text))?;
        out = emit(out, " = ", Ghost(base), Ghost(text + pairs[i as int].0))?;
        proof {
            vstd::std_specs::vec::axiom_vec_index_decreases(*es, i as int);
        }
        out = compose_value(&es[i].1, inner, out)?;
        proof {
            let head = text + pairs[i as int].0 + " = "@;
            let item = render(pairs[i as int].1, inner);
            lemma_encode_concat(head, item);
            assert(out@ =~= base + encode_utf8(head + item));
            assert(render_pair(pairs[i as int].0, pairs[i as int].1, inner) == pairs[i as int].0
                + " = "@ + item);
            assert(head + item =~= opener(info) + render_pairs(pairs, inner, (i + 1) as nat));
        }
        i += 1;
    }
    let ghost body = opener(info) + render_pairs(pairs, inner, pairs.len());
    if info.newline {
        emit(out, "\n}", Ghost(base), Ghost(body))
    } else {
        emit(out, " }", Ghost(base), Ghost(body))
    }
}

/// Writes the text of a document to the end of `out`.
pub fn gen_agpref(agpref: &Agpref, out: Vec<u8>) -> (r: Result<Vec<u8>, Errors>)
    ensures
        r matches Ok(b) && b@ == out@ + encode_utf8(render_document(agpref@)),
{
    let ghost base = out@;
    let ghost none = Seq::<char>::empty();
    proof {
        assert(encode_utf8(none) =~= Seq::<u8>::empty());
        assert(out@ =~= base + encode_utf8(none));
        assert(none + agpref@.name =~= agpref@.name);
    }
    let out = emit(out, agpref.name.as_str(), Ghost(base), Ghost(none))?;
    let out = emit(out, " = ", Ghost(base), Ghost(agpref@.name))?;
    let ghost head = agpref@.name + " = "@;
    let root = Info { newline: true, inherit: false, depth: 0 };
    let out = compose_value(&agpref.values, root, out)?;
    proof {
        lemma_encode_concat(head, render(agpref@.values, root));
        assert(out@ =~= base + encode_utf8(head + render(agpref@.values, root)));
    }
    emit(out, "\n", Ghost(base), Ghost(head + render(agpref@.values, root)))
}

impl Agpref {
    /// The text of the document.
    pub fn to_str(&self) -> (r: Result<String, Errors>)
        ensures
            r matches Ok(s) && s@ == render_document(self@),
    {
        let buf: Vec<u8> = Vec::new();
        let buf = gen_agpref(self, buf)?;
        proof {
            let text = render_document(self@);
            assert(buf@ =~= encode_utf8(text));
            vstd::utf8::encode_utf8_valid_utf8(text);
            vstd::utf8::encode_utf8_decode_utf8(text);
        }
        match String::from_utf8(buf) {
            Ok(s) => Ok(s),
            Err(_) => Err(Errors::Utf8),
        }
    }
}

impl NamedList {
    /// The document that the named list is.
    pub open spec fn as_document(self) -> AgprefView {
        AgprefView { name: self@.name, values: ValueView::Values(self@.values) }
    }

    /// The string that holds the text of the named list.
    pub fn into_value(self) -> (r: Result<Value, Errors>)
        ensures
            r matches Ok(v) && v@ == ValueView::String(render_document(self.as_document())),
    {
        let NamedList { name, values } = self;
        proof {
            lemma_view_values(values);
        }
        let doc = Agpref { name, values: Value::Values(values) };
        let text = doc.to_str()?;
        Ok(Value::String(text))
    }
}

} // verus!
