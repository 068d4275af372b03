//! The ways in which building the index or annotating a record can fail.

use vstd::prelude::*;

verus! {

/// Why a record could not be taken in.
#[derive(Debug, Clone, Copy, PartialEq, Eq, Structural)]
pub enum JoinError {
    /// A barcode line without the space that separates read name and comment.
    MissingComment,
    /// A read name with fewer than seven ':'-separated fields.
    MalformedReadName,
    /// An interner would need more identifiers than 16 bits give.
    TableFull,
    /// One read key was given two different annotations.
    Conflict { old_comment: u16, new_comment: u16 },
}

} // verus!
