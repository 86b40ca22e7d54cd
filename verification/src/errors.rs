//! What can go wrong while reading or writing a document.

use vstd::prelude::*;

verus! {

/// The grammar rule that failed to match.
#[derive(Debug, Clone, Copy, PartialEq, Eq, Structural)]
pub enum Rule {
    /// A key: a run of characters other than whitespace and `=`.
    Key,
    /// The `=` between a key and its value.
    Equals,
    /// A value of any kind.
    Value,
    /// An opening `{`.
    Open,
    /// A closing `}`.
    Close,
    /// The `,` between two entries.
    Comma,
    /// A `"` that opens or closes a string.
    Quote,
    /// A character that may follow a backslash inside a string.
    Escape,
    /// A collection nested no deeper than the parser allows.
    Depth,
}

/// A grammar rule that failed, and the index of the character at which it
/// failed.
#[derive(Debug, Clone, Copy, PartialEq, Eq, Structural)]
pub struct Failure {
    pub rule: Rule,
    pub position: usize,
}

/// What a grammar rule makes of a text from a given position on: a value and
/// the position after it, or the rule that failed and where.
pub enum Parsed<T> {
    Hit(T, int),
    Miss(Rule, int),
}

/// Whether an executable parser's result is what the grammar says.
pub open spec fn agree<T: View>(r: Result<(T, usize), Failure>, p: Parsed<T::V>) -> bool {
    match p {
        Parsed::Hit(v, end) => r matches Ok(pair) && pair.0@ == v && pair.1 == end,
        Parsed::Miss(rule, at) => r matches Err(f) && f.rule == rule && f.position == at,
    }
}

/// A failure to read or to write a document.
#[derive(Debug, Clone, Copy, PartialEq, Eq, Structural)]
pub enum Errors {
    /// The text does not match the grammar: `rule` failed at the character
    /// with index `position`.
    Syntax { rule: Rule, position: usize },
    /// A complete document was read, but the text goes on at the character
    /// with index `position`.
    TrailingInput { position: usize },
    /// The composed bytes are no valid UTF-8 text.
    Utf8,
    /// The output buffer refused the composed bytes.
    Compose,
}

impl Errors {
    /// A sentence that describes the failure.
    pub fn message(&self) -> (out: &'static str)
        ensures
            out@ == match *self {
                Errors::Syntax { .. } => "the text does not match the grammar"@,
                Errors::TrailingInput { .. } => "the text goes on after the document"@,
                Errors::Utf8 => "the composed bytes are no valid UTF-8 text"@,
                Errors::Compose => "the output buffer refused the composed bytes"@,
            },
    {
        match self {
            Errors::Syntax { .. } => "the text does not match the grammar",
            Errors::TrailingInput { .. } => "the text goes on after the document",
            Errors::Utf8 => "the composed bytes are no valid UTF-8 text",
            Errors::Compose => "the output buffer refused the composed bytes",
        }
    }
}

} // verus!
