//! Blocks of column data handed between the encoders and the decoders.
use vstd::prelude::*;

verus! {

/// Element types of a column.
#[derive(Debug, Clone, Copy, PartialEq, Eq, Structural)]
pub enum DataType {
    UInt8,
    UInt16,
    UInt32,
    UInt64,
    Int8,
    Int16,
    Int32,
    Int64,
    Float16,
    Float32,
    Float64,
}

impl DataType {
    /// Bits of one value of an integer type; `None` for the others.
    pub open spec fn spec_int_width(self) -> Option<u64> {
        match self {
            DataType::UInt8 | DataType::Int8 => Some(8),
            DataType::UInt16 | DataType::Int16 => Some(16),
            DataType::UInt32 | DataType::Int32 => Some(32),
            DataType::UInt64 | DataType::Int64 => Some(64),
            _ => None,
        }
    }

    /// Bits of one value of an integer type; `None` for the others.
    #[verifier::when_used_as_spec(spec_int_width)]
    pub fn int_width(self) -> (r: Option<u64>)
        ensures
            r == self.spec_int_width(),
    {
        match self {
            DataType::UInt8 | DataType::Int8 => Some(8),
            DataType::UInt16 | DataType::Int16 => Some(16),
            DataType::UInt32 | DataType::Int32 => Some(32),
            DataType::UInt64 | DataType::Int64 => Some(64),
            _ => None,
        }
    }

    /// Whether the type is a signed integer type.
    pub open spec fn spec_is_signed_int(self) -> bool {
        match self {
            DataType::Int8 | DataType::Int16 | DataType::Int32 | DataType::Int64 => true,
            _ => false,
        }
    }
}

/// Values of one fixed bit width, densely packed in `data`.
pub struct FixedWidthDataBlock {
    pub bits_per_value: u64,
    pub data: Vec<u8>,
    pub num_values: u64,
}

/// A block that is all null: only its length is kept.
pub struct AllNullDataBlock {
    pub num_values: u64,
}

/// Values with a validity bitmap beside them.
pub struct NullableDataBlock {
    pub data: Box<DataBlock>,
    pub nulls: Vec<u8>,
}

/// The shapes of data that an encoder may be handed.
pub enum DataBlock {
    AllNull(AllNullDataBlock),
    FixedWidth(FixedWidthDataBlock),
    Nullable(NullableDataBlock),
    /// Values of varying width (strings, binary): no bit-packing applies.
    VariableWidth(Vec<u8>),
}

} // verus!
