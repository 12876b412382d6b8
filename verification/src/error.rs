use vstd::prelude::*;

verus! {

/// Every failure the store can surface.
#[derive(Debug)]
pub enum DBError {
    /// The entry codec rejected a value (or the value would collide with
    /// the end-of-entry sentinel on disk).
    SerializeError,
    /// The entry codec could not decode a chunk's payload.
    DeserializeError,
    /// The UID codec could not produce a UID block.
    UIDSerializeError,
    /// The UID codec could not read a UID block (input shorter than a UID).
    UIDDeserializeError,
    /// The file structure is not a well-formed chunk sequence as observed
    /// mid-scan (the stream ended before an end-of-entry block).
    InvalidData,
    /// A scan completed without matching the requested UID or predicate.
    EntryNotFound,
    /// The store could not obtain a file to iterate over.
    FailedToRetrieveIterator,
    /// The host file failed; the message comes from the host.
    IOError(String),
    /// No more bytes are available at the stream position.
    EndOfFileStream,
}

} // verus!
