//! Why a blob could not be opened.
use vstd::prelude::*;

verus! {

/// A structural fault found while opening a blob.
#[derive(Debug, Clone, Copy, PartialEq, Eq, Structural)]
pub enum ColumnarError {
    /// The blob is shorter than the fixed fields it must hold.
    Truncated,
    /// A recorded length runs past the end of the bytes that hold it.
    LengthOutOfBounds,
    /// The values segment names a codec that does not exist.
    UnknownCodec(u8),
    /// The index segment names a shape that does not exist.
    UnknownIndexKind(u8),
    /// A segment's contents contradict its own header.
    Malformed,
    /// A term ordinal is not below the number of terms of the dictionary.
    OrdinalOutOfRange,
}

} // verus!
