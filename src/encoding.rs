//! Descriptors that record how a page was encoded.
use vstd::prelude::*;

verus! {

/// Descriptor of a bit-granular packed page.
#[derive(Debug, Clone, Copy, PartialEq, Eq, Structural)]
pub struct Bitpacked {
    pub compressed_bits_per_value: u64,
    pub uncompressed_bits_per_value: u64,
    pub buffer_index: u32,
    pub signed: bool,
}

/// Descriptor of a page packed in chunks of 1024 non-negative values.
#[derive(Debug, Clone, Copy, PartialEq, Eq, Structural)]
pub struct BitpackedForNonNeg {
    pub compressed_bits_per_value: u64,
    pub uncompressed_bits_per_value: u64,
    pub buffer_index: u32,
}

/// Descriptor of a buffer stored as is.
#[derive(Debug, Clone, Copy, PartialEq, Eq, Structural)]
pub struct Flat {
    pub bits_per_value: u64,
    pub buffer_index: u32,
}

/// How an array was encoded.
#[derive(Debug)]
pub enum ArrayEncoding {
    Bitpacked(Bitpacked),
    BitpackedForNonNeg(BitpackedForNonNeg),
    AllNull,
    /// Values with a validity bitmap: the bitmap's encoding, then the values'.
    SomeNull(Flat, Box<ArrayEncoding>),
}

} // verus!
