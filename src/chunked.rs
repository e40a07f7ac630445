//! The chunked codec for non-negative values: pages of 1024-value chunks at one bit width.
use vstd::prelude::*;
use std::ops::Range;

use crate::bits::{bit_at, bits_clear, copy_bits, ext_bit, lemma_zeroed_clear};
use crate::block::{DataBlock, DataType, FixedWidthDataBlock, NullableDataBlock};
use crate::encode::{is_native_width, EncodedArray};
use crate::encoding::{ArrayEncoding, BitpackedForNonNeg, Flat};
use crate::error::Error;
use crate::pack::{num_values, pack_bits, packed_bit};

verus! {

/// Values per chunk.
pub const ELEMS_PER_CHUNK: u64 = 1024;

/// Bytes of a page of `n` values packed at `b` bits in chunks of 1024: every chunk is
/// whole, the last one padded with zeros.
pub open spec fn chunked_len(n: int, b: int) -> int {
    ((n + 1023) / 1024) * (128 * b)
}

/// What a successful chunked encode of the `w`-bit values of `u` into `b` bits holds: the
/// values packed densely, chunk after chunk, and zeros after them.
pub open spec fn chunked_block(u: FixedWidthDataBlock, w: u64, b: u64, f: FixedWidthDataBlock) -> bool {
    &&& f.bits_per_value == b
    &&& f.num_values == u.num_values
    &&& f.data@.len() == chunked_len(u.num_values as int, b as int)
    &&& forall|k: int|
        0 <= k < 8 * f.data@.len() ==> #[trigger] bit_at(f.data@, k) == (k < u.num_values * b
            && packed_bit(u.data@, w as int, b as int, k))
}

/// The error, if any, of a chunked encode of the `w`-bit values of `u` into `b` bits.
pub open spec fn chunked_fixed_error(u: FixedWidthDataBlock, w: u64, b: u64) -> Option<Error> {
    if !(1 <= b <= w) {
        Some(Error::InvalidBitWidth)
    } else if u.data@.len() * 8 != u.num_values * w {
        Some(Error::BlockLengthMismatch)
    } else {
        None
    }
}

/// Whether a fixed-width block is small enough to encode in chunks at `b` bits.
pub open spec fn chunked_fits_memory(u: FixedWidthDataBlock, b: int) -> bool {
    &&& 8 * u.data@.len() <= usize::MAX
    &&& 8 * chunked_len(u.num_values as int, b) <= usize::MAX
}

/// The error, if any, of a chunked encode of `data`, of type `dt`, into `b` bits.
pub open spec fn non_neg_encode_error(data: &DataBlock, dt: DataType, b: u64) -> Option<Error> {
    match data {
        DataBlock::AllNull(_) => None,
        DataBlock::FixedWidth(u) => match dt.spec_int_width() {
            Some(w) => chunked_fixed_error(*u, w, b),
            None => Some(Error::UnsupportedType),
        },
        DataBlock::Nullable(nb) => match *nb.data {
            DataBlock::FixedWidth(u) => match dt.spec_int_width() {
                Some(w) => chunked_fixed_error(u, w, b),
                None => Some(Error::UnsupportedType),
            },
            _ => Some(Error::UnsupportedBlockShape),
        },
        DataBlock::VariableWidth(_) => Some(Error::UnsupportedBlockShape),
    }
}

/// Packs the `w`-bit values of `u` at `b` bits each, in chunks of 1024.
fn encode_fixed_width(u: FixedWidthDataBlock, w: u64, b: u64) -> (r: Result<
    FixedWidthDataBlock,
    Error,
>)
    requires
        is_native_width(w),
        chunked_fits_memory(u, b as int),
    ensures
        match chunked_fixed_error(u, w, b) {
            Some(e) => r == Err::<FixedWidthDataBlock, Error>(e),
            None => r matches Ok(f) && chunked_block(u, w, b, f),
        },
{
    if b < 1 || b > w {
        return Err(Error::InvalidBitWidth);
    }
    let n = u.num_values;
    if (u.data.len() as u64) / (w / 8) != n || (u.data.len() as u64) % (w / 8) != 0 {
        assert(u.data@.len() * 8 != n * w) by {
            if u.data@.len() * 8 == n * w {
                crate::encode::lemma_len_div(u.data@.len() as int, w as int, n as int);
            }
        }
        return Err(Error::BlockLengthMismatch);
    }
    proof {
        crate::encode::lemma_len_mul(u.data@.len() as int, w as int, n as int);
        assert(num_values(u.data@, w as int) == n) by {
            vstd::arithmetic::div_mod::lemma_fundamental_div_mod_converse(
                8 * u.data@.len() as int,
                w as int,
                n as int,
                0,
            );
        }
        let nn = n as int;
        vstd::arithmetic::div_mod::lemma_fundamental_div_mod(nn + 1023, 1024);
        assert(nn * b <= 8 * chunked_len(nn, b as int)) by (nonlinear_arith)
            requires
                nn + 1023 == 1024 * ((nn + 1023) / 1024) + (nn + 1023) % 1024,
                (nn + 1023) % 1024 < 1024,
                chunked_len(nn, b as int) == ((nn + 1023) / 1024) * (128 * b),
                b >= 1,
        ;
    }
    let num_chunks: u64 = n / ELEMS_PER_CHUNK + if n % ELEMS_PER_CHUNK == 0 {
        0
    } else {
        1
    };
    assert(num_chunks == (n + 1023) / 1024);
    proof {
        assert(num_chunks * (128 * b) <= usize::MAX);
    }
    let total_bytes: usize = (num_chunks as usize) * (128 * b as usize);
    let mut output: Vec<u8> = vec![0u8; total_bytes];
    let mut dst_idx: usize = 0;
    let mut dst_offset: u8 = 0;
    proof {
        lemma_zeroed_clear(output@);
    }
    pack_bits(&u.data, w, b, &mut output, &mut dst_idx, &mut dst_offset);
    Ok(FixedWidthDataBlock { bits_per_value: b, data: output, num_values: n })
}

/// Encoder of non-negative integers in chunks of 1024 values at one bit width.
pub struct BitpackedForNonNegArrayEncoder {
    pub compressed_bit_width: usize,
    pub original_data_type: DataType,
}

impl BitpackedForNonNegArrayEncoder {
    pub fn new(compressed_bit_width: usize, data_type: DataType) -> (r: Self)
        ensures
            r.compressed_bit_width == compressed_bit_width,
            r.original_data_type == data_type,
    {
        BitpackedForNonNegArrayEncoder { compressed_bit_width, original_data_type: data_type }
    }

    /// Encodes a block of `data_type` values. An all-null block is kept as it is; a
    /// fixed-width block is packed and takes the next buffer index; a nullable one keeps
    /// its validity bitmap, which takes the next index, and packs its values into the one
    /// after.
    pub fn encode(&self, data: DataBlock, data_type: &DataType, buffer_index: &mut u32) -> (r:
        Result<EncodedArray, Error>)
        requires
            *old(buffer_index) + 2 <= u32::MAX,
            data matches DataBlock::FixedWidth(u) ==> chunked_fits_memory(
                u,
                self.compressed_bit_width as int,
            ),
            data matches DataBlock::Nullable(nb) ==> (*nb.data matches DataBlock::FixedWidth(u)
                ==> chunked_fits_memory(u, self.compressed_bit_width as int)),
        ensures
            ({
                let b = self.compressed_bit_width as u64;
                match non_neg_encode_error(&data, *data_type, b) {
                    Some(err) => r == Err::<EncodedArray, Error>(err) && *final(buffer_index)
                        == *old(buffer_index),
                    None => match data {
                        DataBlock::AllNull(a) => {
                            &&& r matches Ok(e)
                            &&& e.data == DataBlock::AllNull(a)
                            &&& e.encoding == ArrayEncoding::AllNull
                            &&& *final(buffer_index) == *old(buffer_index)
                        },
                        DataBlock::FixedWidth(u) => {
                            let w = data_type.spec_int_width()->0;
                            &&& r matches Ok(e)
                            &&& e.data matches DataBlock::FixedWidth(f)
                            &&& chunked_block(u, w, b, f)
                            &&& e.encoding == ArrayEncoding::BitpackedForNonNeg(
                                BitpackedForNonNeg {
                                    compressed_bits_per_value: b,
                                    uncompressed_bits_per_value: w,
                                    buffer_index: *old(buffer_index),
                                },
                            )
                            &&& *final(buffer_index) == *old(buffer_index) + 1
                        },
                        DataBlock::Nullable(nb) => {
                            let w = data_type.spec_int_width()->0;
                            &&& r matches Ok(e)
                            &&& *nb.data matches DataBlock::FixedWidth(u)
                            &&& e.data matches DataBlock::Nullable(enb)
                            &&& enb.nulls == nb.nulls
                            &&& *enb.data matches DataBlock::FixedWidth(f)
                            &&& chunked_block(u, w, b, f)
                            &&& e.encoding == ArrayEncoding::SomeNull(
                                Flat { bits_per_value: 1, buffer_index: *old(buffer_index) },
                                Box::new(
                                    ArrayEncoding::BitpackedForNonNeg(
                                        BitpackedForNonNeg {
                                            compressed_bits_per_value: b,
                                            uncompressed_bits_per_value: w,
                                            buffer_index: (*old(buffer_index) + 1) as u32,
                                        },
                                    ),
                                ),
                            )
                            &&& *final(buffer_index) == *old(buffer_index) + 2
                        },
                        _ => false,
                    },
                }
            }),
    {
        let b = self.compressed_bit_width as u64;
        match data {
            DataBlock::AllNull(a) => Ok(
                EncodedArray { data: DataBlock::AllNull(a), encoding: ArrayEncoding::AllNull },
            ),
            DataBlock::FixedWidth(u) => {
                let w = match data_type.int_width() {
                    Some(w) => w,
                    None => {
                        return Err(Error::UnsupportedType);
                    },
                };
                let f = match encode_fixed_width(u, w, b) {
                    Ok(f) => f,
                    Err(e) => {
                        return Err(e);
                    },
                };
                let index = *buffer_index;
                *buffer_index = index + 1;
                Ok(
                    EncodedArray {
                        data: DataBlock::FixedWidth(f),
                        encoding: ArrayEncoding::BitpackedForNonNeg(
                            BitpackedForNonNeg {
                                compressed_bits_per_value: b,
                                uncompressed_bits_per_value: w,
                                buffer_index: index,
                            },
                        ),
                    },
                )
            },
            DataBlock::Nullable(nb) => {
                let NullableDataBlock { data: inner, nulls } = nb;
                let u = match *inner {
                    DataBlock::FixedWidth(u) => u,
                    _ => {
                        return Err(Error::UnsupportedBlockShape);
                    },
                };
                let w = match data_type.int_width() {
                    Some(w) => w,
                    None => {
                        return Err(Error::UnsupportedType);
                    },
                };
                let f = match encode_fixed_width(u, w, b) {
                    Ok(f) => f,
                    Err(e) => {
                        return Err(e);
                    },
                };
                let validity_index = *buffer_index;
                *buffer_index = validity_index + 2;
                Ok(
                    EncodedArray {
                        data: DataBlock::Nullable(
                            NullableDataBlock { data: Box::new(DataBlock::FixedWidth(f)), nulls },
                        ),
                        encoding: ArrayEncoding::SomeNull(
                            Flat { bits_per_value: 1, buffer_index: validity_index },
                            Box::new(
                                ArrayEncoding::BitpackedForNonNeg(
                                    BitpackedForNonNeg {
                                        compressed_bits_per_value: b,
                                        uncompressed_bits_per_value: w,
                                        buffer_index: validity_index + 1,
                                    },
                                ),
                            ),
                        ),
                    },
                )
            },
            DataBlock::VariableWidth(_) => Err(Error::UnsupportedBlockShape),
        }
    }
}

/// First row of the chunk that holds the first row of `g`: the row at bit 0 of a buffer
/// fetched for the ranges `g`.
pub open spec fn chunk_base(g: Seq<Range<u64>>) -> int {
    (g[0].start / 1024) * 1024
}

/// The rows of `r`, in a buffer for buffer index `i` that starts at row `base`, each as
/// (buffer, bit position).
pub open spec fn range_rows(i: int, base: int, r: Range<u64>, b: int) -> Seq<(int, int)> {
    Seq::new((r.end - r.start) as nat, |t: int| (i, (r.start + t - base) * b))
}

/// The rows of the first `k` ranges of group `g`, which was fetched as buffer `i`.
pub open spec fn group_rows(i: int, g: Seq<Range<u64>>, b: int, k: int) -> Seq<(int, int)>
    decreases k,
{
    if k <= 0 {
        Seq::empty()
    } else {
        group_rows(i, g, b, k - 1) + range_rows(i, chunk_base(g), g[k - 1], b)
    }
}

/// The rows requested by the first `i` groups of ranges, in request order.
pub open spec fn requested_rows(gs: Seq<Vec<Range<u64>>>, b: int, i: int) -> Seq<(int, int)>
    decreases i,
{
    if i <= 0 {
        Seq::empty()
    } else {
        requested_rows(gs, b, i - 1) + group_rows(i - 1, gs[i - 1]@, b, gs[i - 1]@.len() as int)
    }
}

/// Whether the buffers `data` hold every row that the groups `gs` ask for.
pub open spec fn groups_within(data: Seq<Vec<u8>>, gs: Seq<Vec<Range<u64>>>, b: int) -> bool {
    &&& data.len() == gs.len()
    &&& forall|i: int|
        0 <= i < gs.len() ==> {
            &&& #[trigger] gs[i]@.len() > 0
            &&& 8 * data[i]@.len() <= usize::MAX
            &&& forall|k: int|
                0 <= k < gs[i]@.len() ==> {
                    &&& chunk_base(gs[i]@) <= #[trigger] gs[i]@[k].start <= gs[i]@[k].end
                    &&& (gs[i]@[k].end - chunk_base(gs[i]@)) * b <= 8 * data[i]@.len()
                }
        }
}


/// Writes the rows `start..end` of a chunk-aligned buffer that begins at row `base`, each
/// widened with zeros to `w` bits, at bit `dst_pos` of `dest`. Returns the bit after them.
fn decode_range(
    src: &Vec<u8>,
    base: u64,
    start: u64,
    end: u64,
    b: u64,
    w: u64,
    dest: &mut Vec<u8>,
    dst_pos: usize,
) -> (new_pos: usize)
    requires
        base <= start <= end,
        (end - base) * b <= 8 * src@.len(),
        8 * src@.len() <= usize::MAX,
        1 <= b <= w,
        dst_pos + (end - start) * w <= 8 * old(dest)@.len(),
        8 * old(dest)@.len() <= usize::MAX,
        bits_clear(old(dest)@, dst_pos as int, dst_pos + (end - start) * w),
    ensures
        new_pos == dst_pos + (end - start) * w,
        final(dest)@.len() == old(dest)@.len(),
        forall|q: int|
            0 <= q < 8 * old(dest)@.len() ==> #[trigger] bit_at(final(dest)@, q) == if dst_pos <= q
                < new_pos {
                ext_bit(
                    src@,
                    (start + (q - dst_pos) / (w as int) - base) * b,
                    b as int,
                    false,
                    (q - dst_pos) % (w as int),
                )
            } else {
                bit_at(old(dest)@, q)
            },
{
    let ghost d0 = dest@;
    proof {
        assert((start - base) * b <= (end - base) * b) by (nonlinear_arith)
            requires
                start <= end,
        ;
    }
    let mut src_pos: usize = ((start - base) * b) as usize;
    let mut pos: usize = dst_pos;
    let mut row: u64 = start;
    while row < end
        invariant
            base <= start <= row <= end,
            (end - base) * b <= 8 * src@.len(),
            8 * src@.len() <= usize::MAX,
            1 <= b <= w,
            dst_pos + (end - start) * w <= 8 * d0.len(),
            8 * d0.len() <= usize::MAX,
            bits_clear(d0, dst_pos as int, dst_pos + (end - start) * w),
            src_pos == (row - base) * b,
            pos == dst_pos + (row - start) * w,
            dest@.len() == d0.len(),
            forall|q: int|
                0 <= q < 8 * d0.len() ==> #[trigger] bit_at(dest@, q) == if dst_pos <= q < pos {
                    ext_bit(
                        src@,
                        (start + (q - dst_pos) / (w as int) - base) * b,
                        b as int,
                        false,
                        (q - dst_pos) % (w as int),
                    )
                } else {
                    bit_at(d0, q)
                },
        decreases end - row,
    {
        proof {
            assert((row - base) * b + b <= (end - base) * b) by (nonlinear_arith)
                requires
                    row < end,
                    base <= row,
            ;
            assert((row - start) * w + w <= (end - start) * w) by (nonlinear_arith)
                requires
                    row < end,
                    start <= row,
            ;
            assert((row - base) * b + b == (row + 1 - base) * b) by (nonlinear_arith);
            assert((row - start) * w + w == (row + 1 - start) * w) by (nonlinear_arith);
        }
        let ghost mid = dest@;
        copy_bits(src, src_pos, b as usize, false, dest, pos, w as usize);
        assert forall|q: int| 0 <= q < 8 * d0.len() implies #[trigger] bit_at(dest@, q) == if dst_pos
            <= q < pos + w {
            ext_bit(
                src@,
                (start + (q - dst_pos) / (w as int) - base) * b,
                b as int,
                false,
                (q - dst_pos) % (w as int),
            )
        } else {
            bit_at(d0, q)
        } by {
            assert(bit_at(mid, q) == bit_at(mid, q));
            if pos <= q < pos + w {
                crate::pack::lemma_split_position(q - dst_pos, (row - start) as int, q - pos, w as int);
            }
        }
        src_pos = src_pos + b as usize;
        pos = pos + w as usize;
        row = row + 1;
    }
    pos
}

/// Decodes the rows that `bytes_idx_to_range_indices` asks of each buffer, in order, each
/// widened with zeros to `uncompressed_bits_per_value` bits, little-endian.
pub fn bitpacked_for_non_neg_decode(
    compressed_bit_width: u64,
    uncompressed_bits_per_value: u64,
    data: &Vec<Vec<u8>>,
    bytes_idx_to_range_indices: &Vec<Vec<Range<u64>>>,
    num_rows: u64,
) -> (r: Vec<u8>)
    requires
        crate::encode::is_native_width(uncompressed_bits_per_value),
        1 <= compressed_bit_width <= uncompressed_bits_per_value,
        groups_within(data@, bytes_idx_to_range_indices@, compressed_bit_width as int),
        num_rows == requested_rows(
            bytes_idx_to_range_indices@,
            compressed_bit_width as int,
            data@.len() as int,
        ).len(),
        num_rows * uncompressed_bits_per_value <= usize::MAX,
    ensures
        r@.len() * 8 == num_rows * uncompressed_bits_per_value,
        forall|q: int|
            0 <= q < num_rows * uncompressed_bits_per_value ==> {
                let w = uncompressed_bits_per_value as int;
                let row = requested_rows(
                    bytes_idx_to_range_indices@,
                    compressed_bit_width as int,
                    data@.len() as int,
                )[q / w];
                #[trigger] bit_at(r@, q) == ext_bit(
                    data@[row.0]@,
                    row.1,
                    compressed_bit_width as int,
                    false,
                    q % w,
                )
            },
{
    let w = uncompressed_bits_per_value;
    let b = compressed_bit_width;
    let ghost gs = bytes_idx_to_range_indices@;
    let ghost all = requested_rows(gs, b as int, data@.len() as int);
    let wbytes: usize = (w / 8) as usize;
    proof {
        assert(wbytes * num_rows * 8 == num_rows * w && wbytes * num_rows <= num_rows * w
            && num_rows <= num_rows * w) by (nonlinear_arith)
            requires
                wbytes * 8 == w,
                w >= 8,
        ;
    }
    let num_bytes: usize = wbytes * (num_rows as usize);
    let mut dest: Vec<u8> = vec![0u8; num_bytes];
    proof {
        lemma_zeroed_clear(dest@);
    }
    let ghost mut acc: Seq<(int, int)> = Seq::empty();
    let mut dst_pos: usize = 0;
    let mut i: usize = 0;
    while i < data.len()
        invariant
            w == uncompressed_bits_per_value,
            b == compressed_bit_width,
            crate::encode::is_native_width(w),
            1 <= b <= w,
            gs == bytes_idx_to_range_indices@,
            groups_within(data@, gs, b as int),
            all == requested_rows(gs, b as int, data@.len() as int),
            num_rows == all.len(),
            num_rows * w <= usize::MAX,
            dest@.len() * 8 == num_rows * w,
            0 <= i <= data@.len(),
            acc == requested_rows(gs, b as int, i as int),
            dst_pos == acc.len() * w,
            forall|q: int|
                0 <= q < 8 * dest@.len() ==> #[trigger] bit_at(dest@, q) == if q < dst_pos {
                    ext_bit(data@[acc[q / w as int].0]@, acc[q / w as int].1, b as int, false, q % w as int)
                } else {
                    false
                },
        decreases data@.len() - i,
    {
        let group = &bytes_idx_to_range_indices[i];
        let src = &data[i];
        let ghost g = group@;
        proof {
            lemma_requested_rows_len(gs, b as int, i as int + 1, data@.len() as int);
            assert(g.len() > 0 && 8 * src@.len() <= usize::MAX);
        }
        let base: u64 = group[0].start / ELEMS_PER_CHUNK * ELEMS_PER_CHUNK;
        let mut k: usize = 0;
        while k < group.len()
            invariant
                w == uncompressed_bits_per_value,
                b == compressed_bit_width,
                crate::encode::is_native_width(w),
                1 <= b <= w,
                gs == bytes_idx_to_range_indices@,
                groups_within(data@, gs, b as int),
                all == requested_rows(gs, b as int, data@.len() as int),
                num_rows == all.len(),
                num_rows * w <= usize::MAX,
                dest@.len() * 8 == num_rows * w,
                0 <= i < data@.len(),
                *group == gs[i as int],
                g == group@,
                *src == data@[i as int],
                base == chunk_base(g),
                0 <= k <= g.len(),
                requested_rows(gs, b as int, i as int + 1).len() <= all.len(),
                acc == requested_rows(gs, b as int, i as int) + group_rows(
                    i as int,
                    g,
                    b as int,
                    k as int,
                ),
                dst_pos == acc.len() * w,
                forall|q: int|
                    0 <= q < 8 * dest@.len() ==> #[trigger] bit_at(dest@, q) == if q < dst_pos {
                        ext_bit(
                            data@[acc[q / w as int].0]@,
                            acc[q / w as int].1,
                            b as int,
                            false,
                            q % w as int,
                        )
                    } else {
                        false
                    },
            decreases g.len() - k,
        {
            let range = &group[k];
            let ghost rr = range_rows(i as int, base as int, *range, b as int);
            proof {
                assert(chunk_base(g) <= g[k as int].start <= g[k as int].end);
                assert((g[k as int].end - chunk_base(g)) * b <= 8 * src@.len());
                lemma_group_rows_len(i as int, g, b as int, k as int + 1, g.len() as int);
                assert(requested_rows(gs, b as int, i as int + 1) == requested_rows(
                    gs,
                    b as int,
                    i as int,
                ) + group_rows(i as int, g, b as int, g.len() as int));
                assert(group_rows(i as int, g, b as int, k as int + 1) == group_rows(
                    i as int,
                    g,
                    b as int,
                    k as int,
                ) + rr);
                assert(acc.len() + rr.len() <= all.len());
                assert(dst_pos + (range.end - range.start) * w == (acc.len() + rr.len()) * w)
                    by (nonlinear_arith)
                    requires
                        dst_pos == acc.len() * w,
                        rr.len() == range.end - range.start,
                ;
                assert((acc.len() + rr.len()) * w <= num_rows * w) by (nonlinear_arith)
                    requires
                        acc.len() + rr.len() <= num_rows,
                        w > 0,
                ;
            }
            let ghost before = dest@;
            let new_pos = decode_range(
                src,
                base,
                range.start,
                range.end,
                b,
                w,
                &mut dest,
                dst_pos,
            );
            let ghost acc2 = acc + rr;
            assert forall|q: int| 0 <= q < 8 * dest@.len() implies #[trigger] bit_at(dest@, q) == if q
                < new_pos {
                ext_bit(
                    data@[acc2[q / w as int].0]@,
                    acc2[q / w as int].1,
                    b as int,
                    false,
                    q % w as int,
                )
            } else {
                false
            } by {
                assert(bit_at(before, q) == bit_at(before, q));
                if dst_pos <= q < new_pos {
                    let m = acc.len() as int;
                    let ww = w as int;
                    vstd::arithmetic::div_mod::lemma_fundamental_div_mod(q, ww);
                    assert(q - dst_pos == (q / ww - m) * ww + q % ww) by (nonlinear_arith)
                        requires
                            q == ww * (q / ww) + q % ww,
                            dst_pos == m * ww,
                    ;
                    vstd::arithmetic::div_mod::lemma_fundamental_div_mod_converse(
                        q - dst_pos,
                        ww,
                        q / ww - m,
                        q % ww,
                    );
                    assert(q / ww >= m) by (nonlinear_arith)
                        requires
                            q >= dst_pos,
                            dst_pos == m * ww,
                            q == ww * (q / ww) + q % ww,
                            q % ww < ww,
                            ww > 0,
                    ;
                    assert(q / ww < m + rr.len()) by (nonlinear_arith)
                        requires
                            q < new_pos,
                            new_pos == (m + rr.len()) * ww,
                            q == ww * (q / ww) + q % ww,
                            q % ww >= 0,
                            ww > 0,
                    ;
                    assert(acc2[q / ww] == rr[q / ww - m]);
                } else if q < dst_pos {
                    vstd::arithmetic::div_mod::lemma_fundamental_div_mod(q, w as int);
                    assert(q / (w as int) < acc.len()) by (nonlinear_arith)
                        requires
                            q < dst_pos,
                            dst_pos == acc.len() * w,
                            q == w * (q / (w as int)) + q % (w as int),
                            q % (w as int) >= 0,
                            w > 0,
                    ;
                    assert(acc2[q / w as int] == acc[q / w as int]);
                }
            }
            proof {
                assert(acc2 =~= requested_rows(gs, b as int, i as int) + group_rows(
                    i as int,
                    g,
                    b as int,
                    k as int + 1,
                ));
                acc = acc2;
            }
            dst_pos = new_pos;
            k += 1;
        }
        proof {
            assert(acc =~= requested_rows(gs, b as int, i as int + 1));
        }
        i += 1;
    }
    proof {
        assert(acc == all);
    }
    dest
}

/// The rows of a prefix of the groups are no more than those of a longer prefix.
proof fn lemma_requested_rows_len(gs: Seq<Vec<Range<u64>>>, b: int, i: int, j: int)
    requires
        0 <= i <= j,
    ensures
        requested_rows(gs, b, i).len() <= requested_rows(gs, b, j).len(),
    decreases j - i,
{
    if i < j {
        lemma_requested_rows_len(gs, b, i, j - 1);
    }
}

/// The rows of a prefix of a group's ranges are no more than those of a longer prefix.
proof fn lemma_group_rows_len(i: int, g: Seq<Range<u64>>, b: int, k: int, l: int)
    requires
        0 <= k <= l,
    ensures
        group_rows(i, g, b, k).len() <= group_rows(i, g, b, l).len(),
    decreases l - k,
{
    if k < l {
        lemma_group_rows_len(i, g, b, k, l - 1);
    }
}

} // verus!
