use vstd::prelude::*;

verus! {

/// The error kinds surfaced by the storage engine.
///
/// `CorruptFormat` covers malformed on-disk bytes (a trailing metadata
/// length that exceeds the buffer, an offset overflow, a first key greater
/// than a last key). `Io` is reserved for callers that drive real files.
/// `OutOfRange` reports a block index at or past the block count.
/// `IteratorTainted` reports a `next` on an iterator that already failed.
#[derive(Clone, Copy, Debug, PartialEq, Eq, Structural)]
pub enum LsmError {
    CorruptFormat,
    Io,
    OutOfRange,
    IteratorTainted,
}

} // verus!
