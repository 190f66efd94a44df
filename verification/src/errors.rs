//! Error values surfaced by the parser and the store operations.
//!
//! Parse and type errors are explicit, recoverable values: the library
//! never substitutes a default for malformed input and never panics.

use vstd::prelude::*;

verus! {

/// A failure while decoding text into a value.
#[derive(Clone, Copy, Debug, PartialEq, Eq)]
pub enum ParseError {
    /// A starred literal whose interior is not a decimal float literal.
    MalformedNumber,
    /// A composite or scalar delimiter that is opened and never closed.
    UnterminatedDelimiter,
    /// A group entry with no `:` between key and value text.
    MalformedEntry,
}

/// An accessor was called on a value of a different variant.
#[derive(Clone, Copy, Debug, PartialEq, Eq)]
pub struct TypeMismatch;

/// A failure while looking a key up in store text.
#[derive(Clone, Copy, Debug, PartialEq, Eq)]
pub enum StoreError {
    /// The store text itself does not parse.
    Parse(ParseError),
    /// The store parses but holds no entry under the requested key.
    KeyNotFound,
}

} // verus!
