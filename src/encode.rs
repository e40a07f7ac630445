//! The bit-granular encoder: packs a fixed-width block into `num_bits` bits per value.
use vstd::prelude::*;

use crate::bits::{bit_at, lemma_zeroed_clear};
use crate::block::{DataBlock, FixedWidthDataBlock};
use crate::encoding::{ArrayEncoding, Bitpacked};
use crate::error::Error;
use crate::pack::{num_values, pack_bits, packed_bit};

verus! {

/// An encoded array: its data and the descriptor that says how to read it back.
pub struct EncodedArray {
    pub data: DataBlock,
    pub encoding: ArrayEncoding,
}

/// Whether `w` is the width of one of the integer types.
pub open spec fn is_native_width(w: u64) -> bool {
    w == 8 || w == 16 || w == 32 || w == 64
}

/// `ceil(x / 8)`.
pub open spec fn bytes_for_bits(x: int) -> int {
    (x + 7) / 8
}

/// Whether every `w`-bit value of `src` is represented by its low `b` bits: the bits above
/// them are all clear, or, for `signed`, all copies of bit `b - 1`.
pub open spec fn fits_in(src: Seq<u8>, w: int, b: int, signed: bool) -> bool {
    forall|q: int|
        0 <= q < 8 * src.len() && q % w >= b ==> #[trigger] bit_at(src, q) == (signed && bit_at(
            src,
            q - q % w + b - 1,
        ))
}

/// What a successful bit-granular encode of `u` into `b` bits holds.
pub open spec fn bitpacked_block(u: FixedWidthDataBlock, b: u64, f: FixedWidthDataBlock) -> bool {
    &&& f.bits_per_value == b
    &&& f.num_values == u.num_values
    &&& f.data@.len() == bytes_for_bits(u.num_values * b)
    &&& forall|k: int|
        0 <= k < 8 * f.data@.len() ==> #[trigger] bit_at(f.data@, k) == (k < u.num_values * b
            && packed_bit(u.data@, u.bits_per_value as int, b as int, k))
}

/// The error, if any, of a bit-granular encode of `data` into `b` bits.
pub open spec fn bitpacked_encode_error(data: &DataBlock, b: u64) -> Option<Error> {
    match data {
        DataBlock::FixedWidth(u) => {
            if !is_native_width(u.bits_per_value) {
                Some(Error::UnsupportedType)
            } else if !(1 <= b <= u.bits_per_value) {
                Some(Error::InvalidBitWidth)
            } else if u.data@.len() * 8 != u.num_values * u.bits_per_value {
                Some(Error::BlockLengthMismatch)
            } else {
                None
            }
        },
        _ => Some(Error::UnsupportedBlockShape),
    }
}

/// Encoder that packs each value into `num_bits` bits, the top one a sign bit when
/// `signed_type`.
pub struct BitpackedArrayEncoder {
    pub num_bits: u64,
    pub signed_type: bool,
}

impl BitpackedArrayEncoder {
    pub fn new(num_bits: u64, signed_type: bool) -> (r: Self)
        ensures
            r.num_bits == num_bits,
            r.signed_type == signed_type,
    {
        BitpackedArrayEncoder { num_bits, signed_type }
    }

    /// Packs a fixed-width block. The packed buffer takes the next buffer index.
    pub fn encode(&self, data: DataBlock, buffer_index: &mut u32) -> (r: Result<
        EncodedArray,
        Error,
    >)
        requires
            *old(buffer_index) < u32::MAX,
            data matches DataBlock::FixedWidth(u) ==> 8 * u.data@.len() <= usize::MAX,
        ensures
            match bitpacked_encode_error(&data, self.num_bits) {
                Some(err) => r == Err::<EncodedArray, Error>(err) && *final(buffer_index) == *old(
                    buffer_index),
                None => {
                    &&& *final(buffer_index) == *old(buffer_index) + 1
                    &&& r matches Ok(e)
                    &&& data matches DataBlock::FixedWidth(u)
                    &&& e.data matches DataBlock::FixedWidth(f)
                    &&& bitpacked_block(u, self.num_bits, f)
                    &&& e.encoding == ArrayEncoding::Bitpacked(
                        Bitpacked {
                            compressed_bits_per_value: self.num_bits,
                            uncompressed_bits_per_value: u.bits_per_value,
                            buffer_index: *old(buffer_index),
                            signed: self.signed_type,
                        },
                    )
                },
            },
    {
        let unpacked = match data {
            DataBlock::FixedWidth(u) => u,
            _ => {
                return Err(Error::UnsupportedBlockShape);
            },
        };
        let w = unpacked.bits_per_value;
        if !(w == 8 || w == 16 || w == 32 || w == 64) {
            return Err(Error::UnsupportedType);
        }
        if self.num_bits < 1 || self.num_bits > w {
            return Err(Error::InvalidBitWidth);
        }
        let n = unpacked.num_values;
        if (unpacked.data.len() as u64) / (w / 8) != n || (unpacked.data.len() as u64) % (w / 8)
            != 0 {
            assert(unpacked.data@.len() * 8 != n * w) by {
                if unpacked.data@.len() * 8 == n * w {
                    lemma_len_div(unpacked.data@.len() as int, w as int, n as int);
                }
            }
            return Err(Error::BlockLengthMismatch);
        }
        let b = self.num_bits;
        proof {
            lemma_len_mul(unpacked.data@.len() as int, w as int, n as int);
            assert(n * b <= n * w) by (nonlinear_arith)
                requires
                    b <= w,
            ;
            assert(num_values(unpacked.data@, w as int) == n) by {
                vstd::arithmetic::div_mod::lemma_fundamental_div_mod_converse(
                    8 * unpacked.data@.len() as int,
                    w as int,
                    n as int,
                    0,
                );
            }
        }
        let total_bits: usize = (n as usize) * (b as usize);
        let dst_bytes_total: usize = total_bits / 8 + if total_bits % 8 == 0 {
            0
        } else {
            1
        };
        let mut dst: Vec<u8> = vec![0u8; dst_bytes_total];
        let mut dst_idx: usize = 0;
        let mut dst_offset: u8 = 0;
        proof {
            lemma_zeroed_clear(dst@);
        }
        pack_bits(&unpacked.data, w, b, &mut dst, &mut dst_idx, &mut dst_offset);
        let index = *buffer_index;
        *buffer_index = index + 1;
        let packed = FixedWidthDataBlock { bits_per_value: b, data: dst, num_values: n };
        Ok(
            EncodedArray {
                data: DataBlock::FixedWidth(packed),
                encoding: ArrayEncoding::Bitpacked(
                    Bitpacked {
                        compressed_bits_per_value: b,
                        uncompressed_bits_per_value: w,
                        buffer_index: index,
                        signed: self.signed_type,
                    },
                ),
            },
        )
    }
}

/// A byte length holding exactly `n` values of `w` bits.
pub proof fn lemma_len_mul(len: int, w: int, n: int)
    requires
        w == 8 || w == 16 || w == 32 || w == 64,
        len >= 0,
        n >= 0,
        len / (w / 8) == n,
        len % (w / 8) == 0,
    ensures
        len * 8 == n * w,
{
    vstd::arithmetic::div_mod::lemma_fundamental_div_mod(len, w / 8);
    assert(len * 8 == n * w) by (nonlinear_arith)
        requires
            len == (w / 8) * n,
            w == 8 * (w / 8),
    ;
}

/// The converse of [`lemma_len_mul`].
pub proof fn lemma_len_div(len: int, w: int, n: int)
    requires
        w == 8 || w == 16 || w == 32 || w == 64,
        len >= 0,
        n >= 0,
        len * 8 == n * w,
    ensures
        len / (w / 8) == n,
        len % (w / 8) == 0,
{
    assert(len == n * (w / 8)) by (nonlinear_arith)
        requires
            len * 8 == n * w,
            w == 8 * (w / 8),
    ;
    vstd::arithmetic::div_mod::lemma_fundamental_div_mod_converse(len, w / 8, n, 0);
}

} // verus!
