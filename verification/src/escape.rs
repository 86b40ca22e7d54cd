//! The escape sequences of quoted strings: how the composer writes them and
//! how the parser resolves them.

use crate::errors::{agree, Failure, Parsed, Rule};
use vstd::prelude::*;

use vstd::utf8::encode_utf8;

verus! {

/// `memchr::memchr2` returns the index of the first byte of the haystack that
/// is one of the two needles, or `None` if there is no such byte.
pub assume_specification[ memchr::memchr2 ](needle1: u8, needle2: u8, haystack: &[u8]) -> (found:
    Option<usize>)
    ensures
        match found {
            Some(i) => {
                &&& i < haystack@.len()
                &&& (haystack@[i as int] == needle1 || haystack@[i as int] == needle2)
                &&& forall|j: int|
                    0 <= j < i ==> haystack@[j] != needle1 && haystack@[j] != needle2
            },
            None => forall|j: int|
                0 <= j < haystack@.len() ==> haystack@[j] != needle1 && haystack@[j] != needle2,
        },
;

/// `memchr::memchr3` returns the index of the first byte of the haystack that
/// is one of the three needles, or `None` if there is no such byte.
pub assume_specification[ memchr::memchr3 ](
    needle1: u8,
    needle2: u8,
    needle3: u8,
    haystack: &[u8],
) -> (found: Option<usize>)
    ensures
        match found {
            Some(i) => {
                &&& i < haystack@.len()
                &&& (haystack@[i as int] == needle1 || haystack@[i as int] == needle2
                    || haystack@[i as int] == needle3)
                &&& forall|j: int|
                    0 <= j < i ==> haystack@[j] != needle1 && haystack@[j] != needle2
                        && haystack@[j] != needle3
            },
            None => forall|j: int|
                0 <= j < haystack@.len() ==> haystack@[j] != needle1 && haystack@[j] != needle2
                    && haystack@[j] != needle3,
        },
;

/// The bytes of the characters that make the composer look at a string
/// character by character.
pub const BACKSLASH: u8 = 92;

pub const QUOTE: u8 = 34;

pub const LINE_FEED: u8 = 10;

pub const CARRIAGE_RETURN: u8 = 13;

pub const TAB: u8 = 9;

/// Whether a character is written with a backslash before it.
pub open spec fn needs_escape(c: char) -> bool {
    c == '\\' || c == '"' || c == '\n' || c == '\r'
}

/// How one character of a string is written between the quotes.
pub open spec fn escaped(c: char) -> Seq<char> {
    if needs_escape(c) {
        seq!['\\', c]
    } else {
        seq![c]
    }
}

/// How a string is written between the quotes: a backslash before each
/// backslash, double quote, line feed and carriage return, and every other
/// character as it is.
pub open spec fn escape(s: Seq<char>) -> Seq<char>
    decreases s.len(),
{
    if s.len() == 0 {
        Seq::empty()
    } else {
        escaped(s[0]) + escape(s.drop_first())
    }
}

/// The parse whose value has `head` before the value of `tail`.
pub open spec fn prepend(head: Seq<char>, tail: Parsed<Seq<char>>) -> Parsed<Seq<char>> {
    match tail {
        Parsed::Hit(t, end) => Parsed::Hit(head + t, end),
        Parsed::Miss(rule, at) => Parsed::Miss(rule, at),
    }
}

/// The string that the text from `p` on denotes, up to the first double
/// quote, line feed or carriage return that no backslash precedes, or to the
/// end of the text. A backslash stands before a backslash, a double quote, a
/// line feed or a carriage return, which it denotes, or before a carriage
/// return and a line feed, which together denote a line feed; before
/// anything else, or at the end of the text, it is a failure.
pub open spec fn unescape(s: Seq<char>, p: int) -> Parsed<Seq<char>>
    decreases s.len() - p,
{
    if !(0 <= p < s.len()) || s[p] == '"' || s[p] == '\n' || s[p] == '\r' {
        Parsed::Hit(Seq::empty(), p)
    } else if s[p] != '\\' {
        prepend(seq![s[p]], unescape(s, p + 1))
    } else if p + 1 >= s.len() {
        Parsed::Miss(Rule::Escape, p)
    } else if s[p + 1] == '\\' || s[p + 1] == '"' || s[p + 1] == '\n' {
        prepend(seq![s[p + 1]], unescape(s, p + 2))
    } else if s[p + 1] == '\r' {
        if p + 2 < s.len() && s[p + 2] == '\n' {
            prepend(seq!['\n'], unescape(s, p + 3))
        } else {
            prepend(seq!['\r'], unescape(s, p + 2))
        }
    } else {
        Parsed::Miss(Rule::Escape, p)
    }
}

/// Escaping a string with one more character appends that character's
/// escaped form.
pub proof fn lemma_escape_push(s: Seq<char>, c: char)
    ensures
        escape(s.push(c)) == escape(s) + escaped(c),
    decreases s.len(),
{
    let t = s.push(c);
    assert(escape(t) == escaped(t[0]) + escape(t.drop_first()));
    if s.len() == 0 {
        assert(t.drop_first() =~= Seq::<char>::empty());
        assert(escape(t.drop_first()) =~= Seq::<char>::empty());
        assert(escape(t) =~= escape(s) + escaped(c));
    } else {
        assert(t.drop_first() =~= s.drop_first().push(c));
        lemma_escape_push(s.drop_first(), c);
        assert(escape(t) =~= escape(s) + escaped(c));
    }
}

/// A string without characters that need a backslash is written as it is.
pub proof fn lemma_escape_plain(s: Seq<char>)
    requires
        forall|i: int| 0 <= i < s.len() ==> !needs_escape(#[trigger] s[i]),
    ensures
        escape(s) == s,
    decreases s.len(),
{
    if s.len() > 0 {
        assert(!needs_escape(s[0]));
        assert forall|i: int| 0 <= i < s.drop_first().len() implies !needs_escape(
            #[trigger] s.drop_first()[i],
        ) by {
            assert(s.drop_first()[i] == s[i + 1]);
        }
        lemma_escape_plain(s.drop_first());
        assert(escape(s) =~= s);
    } else {
        assert(escape(s) =~= s);
    }
}

/// An ASCII character of a text is one of the bytes of its UTF-8 encoding.
pub proof fn lemma_ascii_char_is_byte(s: Seq<char>, i: int)
    requires
        0 <= i < s.len(),
        '\0' <= s[i] <= '\u{7f}',
    ensures
        exists|j: int| 0 <= j < encode_utf8(s).len() && #[trigger] encode_utf8(s)[j] == s[i] as u8,
    decreases s.len(),
{
    let head = vstd::utf8::encode_scalar(s[0] as u32);
    let tail = encode_utf8(s.drop_first());
    assert(encode_utf8(s) == head + tail);
    if i == 0 {
        let c0 = s[0] as u32;
        assert(c0 as u8 == vstd::utf8::leading_byte_width_1(c0)) by (bit_vector)
            requires
                c0 <= 0x7F,
        ;
        assert(encode_utf8(s)[0] == s[0] as u8);
    } else {
        assert(s.drop_first()[i - 1] == s[i]);
        lemma_ascii_char_is_byte(s.drop_first(), i - 1);
        let j = choose|j: int| 0 <= j < tail.len() && #[trigger] tail[j] == s[i] as u8;
        assert(encode_utf8(s)[head.len() + j] == tail[j]);
    }
}

/// The text `input` as it stands between the quotes of a string.
pub fn escape_string(input: &str) -> (out: String)
    ensures
        out@ == escape(input@),
{
    let bytes = input.as_bytes();
    if memchr::memchr3(BACKSLASH, QUOTE, LINE_FEED, bytes).is_some() || memchr::memchr2(
        CARRIAGE_RETURN,
        TAB,
        bytes,
    ).is_some() {
        let mut out = String::new();
        for c in it: input.chars()
            invariant
                it.seq() == input@,
                out@ == escape(it.seq().take(it.index() as int)),
        {
            proof {
                lemma_escape_push(it.seq().take(it.index() as int), c);
                assert(it.seq().take(it.index() as int).push(c) =~= it.seq().take(
                    it.index() + 1,
                ));
            }
            if c == '\\' || c == '"' || c == '\n' || c == '\r' {
                out.push('\\');
            }
            out.push(c);
            proof {
                assert(out@ =~= escape(it.seq().take(it.index() as int)) + escaped(c));
            }
        }
        proof {
            assert(input@.take(input@.len() as int) =~= input@);
        }
        out
    } else {
        proof {
            assert forall|i: int| 0 <= i < input@.len() implies !needs_escape(
                #[trigger] input@[i],
            ) by {
                if needs_escape(input@[i]) {
                    lemma_ascii_char_is_byte(input@, i);
                }
            }
            lemma_escape_plain(input@);
        }
        input.to_owned()
    }
}

/// Whether a string ends before the character `c`.
pub open spec fn ends_string(c: char) -> bool {
    c == '"' || c == '\n' || c == '\r'
}

fn is_end(c: char) -> (b: bool)
    ensures
        b == ends_string(c),
{
    c == '"' || c == '\n' || c == '\r'
}

proof fn lemma_prepend_empty(x: Parsed<Seq<char>>)
    ensures
        prepend(Seq::empty(), x) == x,
{
    match x {
        Parsed::Hit(t, _) => {
            assert(Seq::<char>::empty() + t =~= t);
        },
        Parsed::Miss(_, _) => {},
    }
}

proof fn lemma_prepend_push(head: Seq<char>, c: char, x: Parsed<Seq<char>>)
    ensures
        prepend(head, prepend(seq![c], x)) == prepend(head.push(c), x),
{
    match x {
        Parsed::Hit(t, _) => {
            assert(head + (seq![c] + t) =~= head.push(c) + t);
        },
        Parsed::Miss(_, _) => {},
    }
}

/// The string that the characters from `from` on denote, and the index of
/// the character at which it ends.
pub fn decode(cs: &Vec<char>, from: usize) -> (r: Result<(String, usize), Failure>)
    requires
        from <= cs.len(),
    ensures
        agree(r, unescape(cs@, from as int)),
        r matches Ok(x) ==> from <= x.1 <= cs.len(),
{
    let n = cs.len();
    let mut out = String::new();
    let mut i: usize = from;
    proof {
        lemma_prepend_empty(unescape(cs@, from as int));
    }
    while i < n && !is_end(cs[i])
        invariant
            from <= i <= n == cs.len(),
            unescape(cs@, from as int) == prepend(out@, unescape(cs@, i as int)),
        decreases n - i,
    {
        let c = cs[i];
        let ghost before = out@;
        if c != '\\' {
            proof {
                lemma_prepend_push(before, c, unescape(cs@, i + 1));
            }
            out.push(c);
            i += 1;
        } else if i + 1 >= n {
            return Err(Failure { rule: Rule::Escape, position: i });
        } else {
            let d = cs[i + 1];
            if d == '\\' || d == '"' || d == '\n' {
                proof {
                    lemma_prepend_push(before, d, unescape(cs@, i + 2));
                }
                out.push(d);
                i += 2;
            } else if d == '\r' {
                if i + 2 < n && cs[i + 2] == '\n' {
                    proof {
                        lemma_prepend_push(before, '\n', unescape(cs@, i + 3));
                    }
                    out.push('\n');
                    i += 3;
                } else {
                    proof {
                        lemma_prepend_push(before, '\r', unescape(cs@, i + 2));
                    }
                    out.push('\r');
                    i += 2;
                }
            } else {
                return Err(Failure { rule: Rule::Escape, position: i });
            }
        }
    }
    proof {
        assert(out@ + Seq::<char>::empty() =~= out@);
    }
    Ok((out, i))
}

/// Reading a string ends inside the text, and fails only by the rule
/// `Escape`, at a backslash.
pub proof fn lemma_unescape_bounds(s: Seq<char>, p: int)
    requires
        0 <= p <= s.len(),
    ensures
        match unescape(s, p) {
            Parsed::Hit(_, end) => p <= end <= s.len(),
            Parsed::Miss(rule, at) => rule == Rule::Escape && p <= at < s.len() && s[at] == '\\',
        },
    decreases s.len() - p,
{
    if p < s.len() && !ends_string(s[p]) {
        if s[p] != '\\' {
            lemma_unescape_bounds(s, p + 1);
        } else if p + 1 < s.len() {
            if s[p + 1] == '\\' || s[p + 1] == '"' || s[p + 1] == '\n' {
                lemma_unescape_bounds(s, p + 2);
            } else if s[p + 1] == '\r' {
                if p + 2 < s.len() && s[p + 2] == '\n' {
                    lemma_unescape_bounds(s, p + 3);
                } else {
                    lemma_unescape_bounds(s, p + 2);
                }
            }
        }
    }
}

/// Whether the text `t` stands in `s` from the position `p` on.
pub open spec fn stands_at(s: Seq<char>, p: int, t: Seq<char>) -> bool {
    &&& 0 <= p
    &&& p + t.len() <= s.len()
    &&& forall|i: int| 0 <= i < t.len() ==> s[p + i] == #[trigger] t[i]
}

/// Where an escaped string stands in a text and the text ends after it, or
/// goes on with a double quote, reading it back gives the string.
pub proof fn lemma_unescape_escaped(s: Seq<char>, p: int, t: Seq<char>)
    requires
        stands_at(s, p, escape(t)),
        p + escape(t).len() == s.len() || s[p + escape(t).len()] == '"',
    ensures
        unescape(s, p) == Parsed::Hit(t, p + escape(t).len()),
    decreases t.len(),
{
    if t.len() == 0 {
        assert(escape(t) =~= Seq::<char>::empty());
        assert(t =~= Seq::<char>::empty());
    } else {
        let c = t[0];
        let rest = t.drop_first();
        let e = escape(t);
        assert(e == escaped(c) + escape(rest));
        let w = escaped(c).len() as int;
        assert forall|i: int| 0 <= i < escape(rest).len() implies s[p + w + i]
            == #[trigger] escape(rest)[i] by {
            assert(e[w + i] == escape(rest)[i]);
        }
        assert(stands_at(s, p + w, escape(rest)));
        lemma_unescape_escaped(s, p + w, rest);
        assert(e[0] == escaped(c)[0]);
        assert(s[p] == e[0]);
        if needs_escape(c) {
            assert(e[1] == c);
            assert(s[p + 1] == e[1]);
            if c == '\r' {
                if p + 2 < s.len() {
                    if escape(rest).len() > 0 {
                        assert(s[p + 2] == escape(rest)[0]);
                        assert(escape(rest) == escaped(rest[0]) + escape(rest.drop_first()));
                        assert(escape(rest)[0] == escaped(rest[0])[0]);
                        assert(s[p + 2] != '\n');
                    } else {
                        assert(s[p + 2] == '"');
                    }
                }
            }
        }
        assert(seq![c] + rest =~= t);
    }
}

/// Reading an escaped string back gives the string: the escaper and the
/// unescaper are inverse to each other.
pub proof fn lemma_escape_inverse(t: Seq<char>)
    ensures
        unescape(escape(t), 0) == Parsed::Hit(t, escape(t).len() as int),
{
    lemma_unescape_escaped(escape(t), 0, t);
}

} // verus!
