use vstd::prelude::*;

verus! {

/// Failure of building or rendering a document.
#[derive(Debug)]
pub enum Error {
    /// A reference, or the requested root, names no registered document.
    BadRef(String),
    /// `build` was called with this many scopes still open.
    BadNesting(usize),
    /// Expanding the named reference would re-enter a document that is
    /// already being expanded, without end.
    Cycle(String),
}

} // verus!
