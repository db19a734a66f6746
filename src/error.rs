//! Failures of the library's operations.

use vstd::prelude::*;

verus! {

/// Why a search or a read of the stored records failed.
#[derive(Debug)]
pub enum BookmarkError {
    /// Neither a pattern nor a tag was given to search with.
    MissingCriteria,
    /// The search pattern does not compile.
    InvalidPattern,
    /// A stored line does not split into exactly three fields; holds the line.
    MalformedRecord(String),
}

} // verus!
