use vstd::prelude::*;

verus! {

/// Errors reported by the codecs and the object store.
///
/// Every failure of the core is one of these typed, recoverable values;
/// no operation of this crate terminates the process.
#[derive(Clone, Copy, Debug, PartialEq, Eq, Structural)]
pub enum StoreError {
    /// The compressed stream is not a valid zlib stream (truncated, wrong
    /// magic bytes, or checksum mismatch).
    CorruptStream,
    /// Canonical framing is invalid, a declared payload length does not
    /// match the actual one, or a metadata block lacks its message
    /// separator.
    MalformedObject,
    /// The format tag names no supported object kind.
    UnsupportedFormat,
    /// No stored data exists for the identifier.
    ObjectNotFound,
    /// The supplied name is not a valid object identifier.
    UnresolvedName,
}

} // verus!
