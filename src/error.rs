//! Errors surfaced by dictionary loading and lookup.
use vstd::prelude::*;

verus! {

/// What went wrong with a dictionary.
#[derive(Clone, Copy, Debug, PartialEq, Eq, Structural)]
pub enum DictionaryError {
    /// A blob is truncated, declares an invalid size, or fails a structural check.
    Format,
    /// A decoded record run or context id lies outside the table it indexes.
    LookupBounds,
}

} // verus!
