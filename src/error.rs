//! Errors reported by the codecs and the vector store.
use vstd::prelude::*;

verus! {

#[derive(Debug, Clone, Copy, PartialEq, Eq, Structural)]
pub enum Error {
    /// The element type, or its uncompressed width, is not one of the integer types.
    UnsupportedType,
    /// The block is neither fixed-width, all-null, nor nullable over fixed-width.
    UnsupportedBlockShape,
    /// The compressed bit width is zero or wider than the values.
    InvalidBitWidth,
    /// A fixed-width block whose byte length disagrees with its value count.
    BlockLengthMismatch,
    /// A column that a chunk of codes needs is absent or has the wrong type.
    MissingColumn,
    /// The columns of a batch of codes disagree in length.
    ColumnLengthMismatch,
    /// The chunks of a store disagree on the vector dimension.
    DimensionMismatch,
    /// A store would hold more rows than its offsets can count.
    TooManyRows,
    /// Stored metadata is absent or cannot be parsed.
    MetadataMissing,
    /// A query was made before the index was loaded.
    UninitializedIndex,
}

} // verus!
