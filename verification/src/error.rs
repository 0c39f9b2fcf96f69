//! The failures that the library reports.

use vstd::prelude::*;

verus! {

/// Why a run cannot go on.
#[derive(Debug, Clone, Copy, PartialEq, Eq, Structural)]
pub enum FixaError {
    /// The sort option is none of `SLT`, `SLB`, `SN`, `SL`.
    UnknownSortOption,
    /// The sort option is `SN`, to which no order is attached.
    UnsupportedSortOption,
    /// The direction is neither `ASCENDING` nor `DESCENDING`.
    UnknownDirection,
    /// The input is no well-formed FASTA.
    MalformedFasta,
}

} // verus!
