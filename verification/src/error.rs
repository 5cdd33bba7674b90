//! The ways in which a read can fail.

use vstd::prelude::*;

verus! {

/// Why a read could not be completed.
#[derive(Debug, Clone, Copy, PartialEq, Eq, Structural)]
pub enum ScanError {
    /// A token was asked for and the input holds no more.
    StreamExhausted,
    /// The token at hand is not the notation of a value of the type asked for.
    ParseMismatch,
    /// The source could not deliver its next line as text. Of input held in
    /// memory this means that the bytes of the line are not valid UTF-8.
    IoFailure,
    /// An edge would be entered in the adjacency list of a vertex beyond the
    /// declared number of vertices.
    IndexOutOfRange,
}

} // verus!
