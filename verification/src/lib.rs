//! A codec for the `agprefs` preference format: a parser, a composer and the
//! value tree they share.
//!
//! [`Agpref::parse`] reads a document and [`Agpref::to_str`] writes one. The
//! module `grammar` says what the parser accepts, the module `composer` what
//! the composer writes, and the module `roundtrip` proves that the parser
//! reads back what the composer wrote.

pub mod chars;
pub mod composer;
pub mod convert;
pub mod errors;
pub mod escape;
pub mod grammar;
pub mod keyindex;
pub mod number;
pub mod parser;
pub mod roundtrip;
pub mod types;
pub mod wellformed;

pub use composer::Info;
pub use errors::{Errors, Rule};
pub use types::{Agpref, OrderedMap, Value};
