//! The ways in which a document can be malformed.

use vstd::prelude::*;

verus! {

/// Why a document could not be compiled. Every one of these ends the call:
/// there is no partial output.
#[derive(Debug, Clone, Copy, PartialEq, Eq, Structural)]
pub enum CompileError {
    /// A `<` has no matching `>` before the end of the buffer.
    UnterminatedTag,
    /// A comment was opened and `-->` does not follow.
    UnterminatedComment,
    /// A quotation mark inside a tag is not closed before the end of the buffer.
    UnterminatedQuote,
    /// A tag or fragment was opened and the events end before its closer.
    UnterminatedStructure,
}

} // verus!
