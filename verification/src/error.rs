use vstd::prelude::*;

verus! {

/// The failures that parcel operations report to their callers.
#[derive(Debug, Clone, Copy, PartialEq, Eq, Structural)]
pub enum ParcelError {
    /// A name could not be converted between byte and text form.
    StringConversion,
    /// The requested object does not exist.
    Enoent,
    /// The requested object is not a regular file.
    NotFile,
    /// The header carries no version field.
    NoVersion,
    /// The header's version field is not an unsigned integer.
    VersionType,
    /// The file was written by a different format version.
    VersionMismatch {
        /// The version this implementation writes and accepts.
        expected: u32,
        /// The version found in the file.
        found: u32,
    },
    /// A write would run past the slot's reserved capacity.
    NeedExpansion,
    /// A read or write fell outside the backing store.
    Io,
    /// The header is not a well-formed structured-text document.
    Codec,
}

} // verus!
