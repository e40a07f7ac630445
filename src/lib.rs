//! Integer bit-packing codecs and a scalar-quantized vector store, with their contracts
//! proved.
//!
//! - [`analyze`] picks the fewest bits that hold an integer array.
//! - [`pack`], [`encode`] and [`decode`] are the bit-granular codec; [`chunked`] packs
//!   non-negative values in chunks of 1024; [`schedule`] plans the byte ranges to read.
//! - [`sq`] stores 8-bit codes in chunks and measures distances on them; [`pq`] narrows a
//!   product-quantization index's codes to the rows a pre-filter keeps.

pub mod analyze;
pub mod bits;
pub mod block;
pub mod chunked;
pub mod decode;
pub mod encode;
pub mod encoding;
pub mod error;
pub mod pack;
pub mod pq;
pub mod round_trip;
pub mod schedule;
pub mod sq;
