use vstd::prelude::*;

verus! {

/// The ways an archive operation can fail.
#[derive(Debug, Clone, Copy, PartialEq, Eq, Structural)]
pub enum ArchiveError {
    /// A source file to be added does not exist.
    NotFound,
    /// Bad magic signature, truncated header or table, a path field without
    /// a terminator, or a path too long for its field.
    InvalidFormat,
    /// A compressed payload could not be inflated.
    CorruptData,
    /// An underlying read, write or positioned read failed.
    IOFailure,
    /// The request does not fit the archive: a wrong mode, or sizes and
    /// offsets that do not fit the format's 32-bit fields.
    InvalidInput,
}

} // verus!
