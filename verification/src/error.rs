//! What can go wrong when an index is built, loaded or asked.

use vstd::prelude::*;

verus! {

/// The failures of this library.
#[derive(Debug, PartialEq, Eq)]
pub enum GaddagError {
    /// A word handed to the builder is empty, too long, or holds a byte that
    /// is no letter. It carries the offending word.
    InvalidWord(String),
    /// A query holds a byte that is no letter.
    InvalidQuery,
    /// The bytes are no index, or the index holds an entry that is not text.
    CorruptIndex,
    /// The automaton could not be built from the entries.
    BuildFailure,
}

impl Clone for GaddagError {
    fn clone(&self) -> (r: Self)
        ensures
            r == *self,
    {
        match self {
            GaddagError::InvalidWord(word) => GaddagError::InvalidWord(word.clone()),
            GaddagError::InvalidQuery => GaddagError::InvalidQuery,
            GaddagError::CorruptIndex => GaddagError::CorruptIndex,
            GaddagError::BuildFailure => GaddagError::BuildFailure,
        }
    }
}

} // verus!
