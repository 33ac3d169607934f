//! Failure taxonomy: loader failures only. Merging itself is total and has
//! no error of its own.

use vstd::prelude::*;

verus! {

/// Why a combined load failed: the document could not be parsed or did not
/// match the structure's field types, or the token list could not be parsed
/// against the declared arguments.
#[derive(Debug, PartialEq)]
pub enum Error {
    Document(String),
    Argument(String),
}

} // verus!
