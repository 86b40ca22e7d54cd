//! Texts as sequences of characters: conversions and character classes.

use vstd::prelude::*;
use vstd::std_specs::iter::IteratorSpec;

verus! {

/// `String::push` appends the given character to the end of the string.
pub assume_specification[ std::string::String::push ](s: &mut std::string::String, c: char)
    ensures
        final(s)@ == old(s)@.push(c),
;

/// The characters of a text, in order.
pub fn chars_of(s: &str) -> (out: Vec<char>)
    ensures
        out@ == s@,
{
    let mut out: Vec<char> = Vec::new();
    for c in it: s.chars()
        invariant
            out@ == it.seq().take(it.index() as int),
            it.seq() == s@,
    {
        proof {
            assert(it.seq().take(it.index() as int).push(c) =~= it.seq().take(it.index() + 1));
        }
        out.push(c);
    }
    proof {
        assert(s@.take(s@.len() as int) =~= s@);
    }
    out
}

/// The text made of the characters `cs[from..to]`.
pub fn text_of(cs: &Vec<char>, from: usize, to: usize) -> (out: String)
    requires
        from <= to <= cs.len(),
    ensures
        out@ == cs@.subrange(from as int, to as int),
{
    let mut out = String::new();
    let mut i: usize = from;
    while i < to
        invariant
            from <= i <= to <= cs.len(),
            out@ == cs@.subrange(from as int, i as int),
        decreases to - i,
    {
        out.push(cs[i]);
        proof {
            assert(cs@.subrange(from as int, i as int).push(cs@[i as int]) =~= cs@.subrange(
                from as int,
                i + 1,
            ));
        }
        i += 1;
    }
    out
}

/// The characters `cs[from..to]`.
pub fn slice_of(cs: &Vec<char>, from: usize, to: usize) -> (out: Vec<char>)
    requires
        from <= to <= cs.len(),
    ensures
        out@ == cs@.subrange(from as int, to as int),
{
    let mut out: Vec<char> = Vec::new();
    let mut i: usize = from;
    while i < to
        invariant
            from <= i <= to <= cs.len(),
            out@ == cs@.subrange(from as int, i as int),
        decreases to - i,
    {
        out.push(cs[i]);
        proof {
            assert(cs@.subrange(from as int, i as int).push(cs@[i as int]) =~= cs@.subrange(
                from as int,
                i + 1,
            ));
        }
        i += 1;
    }
    out
}

/// A class of characters that a token is made of.
#[derive(Debug, Clone, Copy, PartialEq, Eq, Structural)]
pub enum Class {
    /// Space, tab, carriage return and line feed.
    Space,
    /// What a key may hold: anything but whitespace and `=`.
    Key,
    /// What a bare token may hold: anything but `,`, space, `}` and line feed.
    Token,
    /// The ASCII letters and digits.
    Alnum,
    /// The ASCII digits.
    Digit,
}

pub open spec fn is_space(c: char) -> bool {
    c == ' ' || c == '\t' || c == '\r' || c == '\n'
}

pub open spec fn is_digit(c: char) -> bool {
    '0' <= c <= '9'
}

pub open spec fn is_letter(c: char) -> bool {
    ('a' <= c <= 'z') || ('A' <= c <= 'Z')
}

/// Whether the character `c` belongs to the class `k`.
pub open spec fn in_class(k: Class, c: char) -> bool {
    match k {
        Class::Space => is_space(c),
        Class::Key => !is_space(c) && c != '=',
        Class::Token => c != ',' && c != ' ' && c != '}' && c != '\n',
        Class::Alnum => is_digit(c) || is_letter(c),
        Class::Digit => is_digit(c),
    }
}

/// Where the longest run of characters of class `k` that starts at `p` ends.
pub open spec fn run_end(k: Class, s: Seq<char>, p: int) -> int
    decreases s.len() - p,
{
    if 0 <= p < s.len() && in_class(k, s[p]) {
        run_end(k, s, p + 1)
    } else {
        p
    }
}

/// A run ends inside the text, after characters of its class and before one
/// that is not of it.
pub proof fn lemma_run_end(k: Class, s: Seq<char>, p: int)
    requires
        0 <= p <= s.len(),
    ensures
        p <= run_end(k, s, p) <= s.len(),
        forall|i: int| p <= i < run_end(k, s, p) ==> in_class(k, #[trigger] s[i]),
        run_end(k, s, p) < s.len() ==> !in_class(k, s[run_end(k, s, p)]),
    decreases s.len() - p,
{
    if p < s.len() && in_class(k, s[p]) {
        lemma_run_end(k, s, p + 1);
    }
}

/// The run that starts at `p` ends at `e` when the characters between them
/// are of the class and the one at `e`, if there is one, is not.
pub proof fn lemma_run_end_is(k: Class, s: Seq<char>, p: int, e: int)
    requires
        0 <= p <= e <= s.len(),
        forall|i: int| p <= i < e ==> in_class(k, #[trigger] s[i]),
        e < s.len() ==> !in_class(k, s[e]),
    ensures
        run_end(k, s, p) == e,
    decreases e - p,
{
    if p < e {
        lemma_run_end_is(k, s, p + 1, e);
    }
}

/// Whether the character `c` belongs to the class `k`.
pub fn member(k: Class, c: char) -> (b: bool)
    ensures
        b == in_class(k, c),
{
    let space = c == ' ' || c == '\t' || c == '\r' || c == '\n';
    let digit = '0' <= c && c <= '9';
    match k {
        Class::Space => space,
        Class::Key => !space && c != '=',
        Class::Token => c != ',' && c != ' ' && c != '}' && c != '\n',
        Class::Alnum => digit || ('a' <= c && c <= 'z') || ('A' <= c && c <= 'Z'),
        Class::Digit => digit,
    }
}

/// The end of the longest run of characters of class `k` that starts at
/// `from`.
pub fn scan(k: Class, cs: &Vec<char>, from: usize) -> (to: usize)
    requires
        from <= cs.len(),
    ensures
        to == run_end(k, cs@, from as int),
        from <= to <= cs.len(),
{
    let mut i: usize = from;
    while i < cs.len() && member(k, cs[i])
        invariant
            from <= i <= cs.len(),
            run_end(k, cs@, from as int) == run_end(k, cs@, i as int),
        decreases cs.len() - i,
    {
        i += 1;
    }
    i
}

} // verus!
