//! What can go wrong while building or reading an archive.

use vstd::prelude::*;

verus! {

/// The kinds of failure of the archive writer and reader.
#[derive(Clone, Copy, Debug, PartialEq, Eq, Structural)]
pub enum ArchiveError {
    /// Reading or writing the underlying data failed, or it ended early.
    IoError,
    /// The archive does not start with the signature.
    BadSignature,
    /// A header record is cut short or a separator is missing.
    MalformedHeader,
    /// The data ends inside a serialised code tree.
    MalformedTree,
    /// A member's bit budget ends in the middle of a symbol.
    DecodeOverrun,
    /// A member has no bytes.
    EmptyInput,
    /// A code would be longer than 32 bits.
    CodeTooLong,
}

} // verus!
