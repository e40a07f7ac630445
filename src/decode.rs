//! The bit-granular unpacker: reads rows back out of the buffers that the scheduler fetched.
use vstd::prelude::*;
use vstd::arithmetic::div_mod::lemma_fundamental_div_mod;

use crate::bits::{bit_at, copy_bits, ext_bit, lemma_zeroed_clear};
use crate::block::FixedWidthDataBlock;

verus! {

/// Bits to leave out at the end of a buffer whose last value ends `end` bits into its last byte.
pub open spec fn end_pad(end: Option<u8>) -> int {
    match end {
        Some(e) => 8 - e,
        None => 0,
    }
}

/// Number of whole `b`-bit values in a buffer of `len` bytes whose first value begins
/// `start` bits into the first byte.
pub open spec fn buffer_rows(len: int, b: int, start: int, end: Option<u8>) -> int {
    (8 * len - start - end_pad(end)) / b
}

/// Bit offsets that can describe a buffer of `len` bytes.
pub open spec fn offsets_valid(len: int, start: int, end: Option<u8>) -> bool {
    &&& 0 <= start < 8
    &&& match end {
        Some(e) => 1 <= e <= 7,
        None => true,
    }
    &&& 8 * len - start - end_pad(end) >= 0
    &&& 8 * len <= u64::MAX
    &&& 8 * len <= usize::MAX
}

/// Where the first value to read sits in a buffer.
#[derive(Debug, PartialEq, Eq)]
pub struct BufferStartOffset {
    pub index: usize,
    pub bit_offset: u8,
}

/// What to do with one buffer while skipping rows.
#[derive(Debug, PartialEq, Eq)]
pub enum StartOffset {
    /// Skip the whole buffer, which holds this many rows.
    SkipFull(u64),
    /// Start reading at this position in the buffer.
    SkipSome(BufferStartOffset),
}

/// Number of rows in a buffer.
pub fn rows_in_buffer(
    buffer_len: usize,
    bits_per_value: u64,
    buffer_start_bit_offset: u8,
    buffer_end_bit_offset: Option<u8>,
) -> (r: u64)
    requires
        bits_per_value >= 1,
        offsets_valid(buffer_len as int, buffer_start_bit_offset as int, buffer_end_bit_offset),
    ensures
        r == buffer_rows(
            buffer_len as int,
            bits_per_value as int,
            buffer_start_bit_offset as int,
            buffer_end_bit_offset,
        ),
{
    let mut bits_in_buffer: u64 = (buffer_len as u64) * 8 - buffer_start_bit_offset as u64;
    match buffer_end_bit_offset {
        Some(end) => {
            bits_in_buffer = bits_in_buffer - (8 - end) as u64;
        },
        None => {},
    }
    bits_in_buffer / bits_per_value
}

/// How far into a buffer reading starts once `rows_to_skip` rows are passed over.
pub fn compute_start_offset(
    rows_to_skip: u64,
    buffer_len: usize,
    bits_per_value: u64,
    buffer_start_bit_offset: u8,
    buffer_end_bit_offset: Option<u8>,
) -> (r: StartOffset)
    requires
        bits_per_value >= 1,
        offsets_valid(buffer_len as int, buffer_start_bit_offset as int, buffer_end_bit_offset),
    ensures
        ({
            let rows = buffer_rows(
                buffer_len as int,
                bits_per_value as int,
                buffer_start_bit_offset as int,
                buffer_end_bit_offset,
            );
            let start_bit = rows_to_skip * bits_per_value + buffer_start_bit_offset;
            if rows_to_skip >= rows {
                r == StartOffset::SkipFull(rows as u64)
            } else {
                r == StartOffset::SkipSome(
                    BufferStartOffset { index: (start_bit / 8) as usize, bit_offset: (start_bit % 8) as u8 },
                )
            }
        }),
{
    let rows = rows_in_buffer(
        buffer_len,
        bits_per_value,
        buffer_start_bit_offset,
        buffer_end_bit_offset,
    );
    if rows_to_skip >= rows {
        return StartOffset::SkipFull(rows);
    }
    proof {
        lemma_rows_fit(
            rows_to_skip as int,
            bits_per_value as int,
            8 * buffer_len - buffer_start_bit_offset - end_pad(buffer_end_bit_offset),
        );
    }
    let start_bit = rows_to_skip * bits_per_value + buffer_start_bit_offset as u64;
    StartOffset::SkipSome(
        BufferStartOffset { index: (start_bit / 8) as usize, bit_offset: (start_bit % 8) as u8 },
    )
}

/// A row below `x / b` ends within `x` bits.
pub proof fn lemma_rows_fit(r: int, b: int, x: int)
    requires
        b > 0,
        x >= 0,
        0 <= r < x / b,
    ensures
        r * b + b <= x,
{
    lemma_fundamental_div_mod(x, b);
    assert(r * b + b <= x) by (nonlinear_arith)
        requires
            x == b * (x / b) + x % b,
            x % b >= 0,
            r + 1 <= x / b,
            b > 0,
    ;
}

} // verus!

verus! {

/// Decoder for a page of bit-packed values, over the buffers fetched for its ranges.
pub struct BitpackedPageDecoder {
    /// Bit offset of the first value within each buffer.
    pub buffer_bit_start_offsets: Vec<u8>,
    /// Where the last value of each buffer ends within its last byte; `None` when it ends
    /// on a byte boundary.
    pub buffer_bit_end_offsets: Vec<Option<u8>>,
    /// Bits of one packed value.
    pub bits_per_value: u64,
    /// Bits of one decoded value: 8, 16, 32 or 64.
    pub uncompressed_bits_per_value: u64,
    /// Whether the top packed bit is a sign bit.
    pub signed: bool,
    pub data: Vec<Vec<u8>>,
}

impl BitpackedPageDecoder {
    pub open spec fn wf(&self) -> bool {
        &&& self.uncompressed_bits_per_value == 8 || self.uncompressed_bits_per_value == 16
            || self.uncompressed_bits_per_value == 32 || self.uncompressed_bits_per_value == 64
        &&& 1 <= self.bits_per_value <= self.uncompressed_bits_per_value
        &&& self.buffer_bit_start_offsets@.len() == self.data@.len()
        &&& self.buffer_bit_end_offsets@.len() == self.data@.len()
        &&& forall|i: int|
            0 <= i < self.data@.len() ==> offsets_valid(
                #[trigger] self.data@[i]@.len() as int,
                self.buffer_bit_start_offsets@[i] as int,
                self.buffer_bit_end_offsets@[i],
            )
    }

    /// Rows held by buffer `i`.
    pub open spec fn rows_in(&self, i: int) -> int {
        buffer_rows(
            self.data@[i]@.len() as int,
            self.bits_per_value as int,
            self.buffer_bit_start_offsets@[i] as int,
            self.buffer_bit_end_offsets@[i],
        )
    }

    /// The rows of the first `k` buffers, in order, each as (buffer, bit position).
    pub open spec fn rows_upto(&self, k: int) -> Seq<(int, int)>
        decreases k,
    {
        if k <= 0 {
            Seq::empty()
        } else {
            self.rows_upto(k - 1) + Seq::new(
                self.rows_in(k - 1) as nat,
                |r: int|
                    (k - 1, self.buffer_bit_start_offsets@[k - 1] as int + r
                        * self.bits_per_value),
            )
        }
    }

    /// All rows of the page.
    pub open spec fn rows(&self) -> Seq<(int, int)> {
        self.rows_upto(self.data@.len() as int)
    }

    /// Bit `q` of the output of a decode that skips `skip` rows: bit `q % W` of row
    /// `skip + q / W`, sign-extended when the page is signed.
    pub open spec fn decoded_bit(&self, skip: int, q: int) -> bool {
        let w = self.uncompressed_bits_per_value as int;
        let row = self.rows()[skip + q / w];
        ext_bit(self.data@[row.0]@, row.1, self.bits_per_value as int, self.signed, q % w)
    }

    proof fn lemma_rows_upto_len(&self, k: int)
        requires
            self.wf(),
            0 <= k <= self.data@.len(),
        ensures
            self.rows_upto(k).len() >= 0,
            k < self.data@.len() ==> self.rows_upto(k + 1).len() == self.rows_upto(k).len()
                + self.rows_in(k),
        decreases k,
    {
        if k < self.data@.len() {
            assert(self.rows_in(k) >= 0) by {
                let x = 8 * self.data@[k]@.len() - self.buffer_bit_start_offsets@[k] - end_pad(
                    self.buffer_bit_end_offsets@[k],
                );
                assert(offsets_valid(
                    self.data@[k]@.len() as int,
                    self.buffer_bit_start_offsets@[k] as int,
                    self.buffer_bit_end_offsets@[k],
                ));
                assert(x / (self.bits_per_value as int) >= 0) by (nonlinear_arith)
                    requires
                        x >= 0,
                        self.bits_per_value >= 1,
                ;
            }
        }
    }

    proof fn lemma_rows_prefix(&self, k: int)
        requires
            self.wf(),
            0 <= k <= self.data@.len(),
        ensures
            forall|t: int|
                0 <= t < self.rows_upto(k).len() ==> self.rows()[t] == #[trigger] self.rows_upto(
                    k,
                )[t],
        decreases self.data@.len() - k,
    {
        if k < self.data@.len() {
            self.lemma_rows_prefix(k + 1);
            self.lemma_rows_upto_len(k);
            assert forall|t: int| 0 <= t < self.rows_upto(k).len() implies self.rows()[t]
                == #[trigger] self.rows_upto(k)[t] by {
                assert(self.rows_upto(k + 1)[t] == self.rows_upto(k)[t]);
            }
        }
    }

    /// Decodes `num_rows` rows after skipping `rows_to_skip`, each widened to the
    /// uncompressed width (sign-extended for a signed page), little-endian.
    pub fn decode(&self, rows_to_skip: u64, num_rows: u64) -> (r: FixedWidthDataBlock)
        requires
            self.wf(),
            rows_to_skip + num_rows <= self.rows().len(),
            num_rows * self.uncompressed_bits_per_value <= usize::MAX,
        ensures
            r.bits_per_value == self.uncompressed_bits_per_value,
            r.num_values == num_rows,
            r.data@.len() * 8 == num_rows * self.uncompressed_bits_per_value,
            forall|q: int|
                0 <= q < num_rows * self.uncompressed_bits_per_value ==> #[trigger] bit_at(
                    r.data@,
                    q,
                ) == self.decoded_bit(rows_to_skip as int, q),
    {
        let w = self.uncompressed_bits_per_value;
        let b = self.bits_per_value;
        let wbytes: usize = (w / 8) as usize;
        proof {
            assert(wbytes * num_rows * 8 == num_rows * w && wbytes * num_rows <= num_rows * w
                && num_rows <= num_rows * w)
                by (nonlinear_arith)
                requires
                    wbytes * 8 == w,
                    w >= 8,
            ;
        }
        let num_bytes: usize = wbytes * (num_rows as usize);
        let mut dest: Vec<u8> = vec![0u8; num_bytes];
        proof {
            lemma_zeroed_clear(dest@);
        }
        let mut rows_to_skip_left = rows_to_skip;
        let mut rows_taken: u64 = 0;
        let mut dst_pos: usize = 0;
        let mut i: usize = 0;
        while i < self.data.len()
            invariant
                self.wf(),
                w == self.uncompressed_bits_per_value,
                b == self.bits_per_value,
                rows_to_skip + num_rows <= self.rows().len(),
                num_rows * w <= usize::MAX,
                dest@.len() * 8 == num_rows * w,
                0 <= i <= self.data@.len(),
                rows_taken <= num_rows,
                dst_pos == rows_taken * w,
                self.rows_upto(i as int).len() <= rows_to_skip ==> (rows_taken == 0
                    && rows_to_skip_left == rows_to_skip - self.rows_upto(i as int).len()),
                self.rows_upto(i as int).len() > rows_to_skip ==> (rows_to_skip_left == 0
                    && (rows_taken == num_rows || rows_taken == self.rows_upto(i as int).len()
                    - rows_to_skip)),
                forall|q: int|
                    0 <= q < 8 * dest@.len() ==> #[trigger] bit_at(dest@, q) == if q < dst_pos {
                        self.decoded_bit(rows_to_skip as int, q)
                    } else {
                        false
                    },
            decreases self.data@.len() - i,
        {
            let src = &self.data[i];
            let ghost p = self.rows_upto(i as int).len();
            proof {
                self.lemma_rows_upto_len(i as int);
                assert(self.rows_upto(i as int + 1) == self.rows_upto(i as int) + Seq::new(
                    self.rows_in(i as int) as nat,
                    |r: int|
                        (i as int, self.buffer_bit_start_offsets@[i as int] as int + r
                            * self.bits_per_value),
                ));
                assert(offsets_valid(
                    self.data@[i as int]@.len() as int,
                    self.buffer_bit_start_offsets@[i as int] as int,
                    self.buffer_bit_end_offsets@[i as int],
                ));
                self.lemma_rows_prefix(i as int + 1);
            }
            let start_off = self.buffer_bit_start_offsets[i];
            let end_off = self.buffer_bit_end_offsets[i];
            match compute_start_offset(rows_to_skip_left, src.len(), b, start_off, end_off) {
                StartOffset::SkipFull(rows_here) => {
                    rows_to_skip_left = rows_to_skip_left - rows_here;
                },
                StartOffset::SkipSome(offset) => {
                    let rows_here = rows_in_buffer(src.len(), b, start_off, end_off);
                    let ghost x = 8 * src@.len() - start_off - end_pad(end_off);
                    proof {
                        lemma_rows_fit(rows_to_skip_left as int, b as int, x);
                    }
                    let mut src_pos: usize = offset.index * 8 + offset.bit_offset as usize;
                    let mut r: u64 = rows_to_skip_left;
                    rows_to_skip_left = 0;
                    while r < rows_here && rows_taken < num_rows
                        invariant
                            self.wf(),
                            w == self.uncompressed_bits_per_value,
                            b == self.bits_per_value,
                            0 <= i < self.data@.len(),
                            *src == self.data@[i as int],
                            start_off == self.buffer_bit_start_offsets@[i as int],
                            end_off == self.buffer_bit_end_offsets@[i as int],
                            offsets_valid(src@.len() as int, start_off as int, end_off),
                            x == 8 * src@.len() - start_off - end_pad(end_off),
                            rows_here == self.rows_in(i as int),
                            rows_here == x / (b as int),
                            p == self.rows_upto(i as int).len(),
                            forall|t: int|
                                0 <= t < self.rows_upto(i as int + 1).len() ==> self.rows()[t]
                                    == #[trigger] self.rows_upto(i as int + 1)[t],
                            self.rows_upto(i as int + 1).len() == p + rows_here,
                            forall|t: int|
                                0 <= t < rows_here ==> #[trigger] self.rows_upto(i as int + 1)[p
                                    + t] == (i as int, start_off + t * b),
                            r <= rows_here,
                            src_pos == start_off + r * b,
                            rows_taken <= num_rows,
                            rows_taken == num_rows || rows_taken + rows_to_skip == p + r,
                            rows_to_skip + num_rows <= self.rows().len(),
                            num_rows * w <= usize::MAX,
                            dest@.len() * 8 == num_rows * w,
                            dst_pos == rows_taken * w,
                            forall|q: int|
                                0 <= q < 8 * dest@.len() ==> #[trigger] bit_at(dest@, q) == if q
                                    < dst_pos {
                                    self.decoded_bit(rows_to_skip as int, q)
                                } else {
                                    false
                                },
                        decreases rows_here - r,
                    {
                        proof {
                            lemma_rows_fit(r as int, b as int, x);
                            assert((rows_taken + 1) * w <= num_rows * w) by (nonlinear_arith)
                                requires
                                    rows_taken < num_rows,
                                    w > 0,
                            ;
                            assert(rows_taken * w + w == (rows_taken + 1) * w) by (nonlinear_arith);
                            assert(start_off + r * b + b == start_off + (r + 1) * b) by (nonlinear_arith);
                        }
                        let ghost mid = dest@;
                        copy_bits(
                            src,
                            src_pos,
                            b as usize,
                            self.signed,
                            &mut dest,
                            dst_pos,
                            w as usize,
                        );
                        assert forall|q: int| 0 <= q < 8 * dest@.len() implies #[trigger] bit_at(
                            dest@,
                            q,
                        ) == if q < dst_pos + w {
                            self.decoded_bit(rows_to_skip as int, q)
                        } else {
                            false
                        } by {
                            assert(bit_at(mid, q) == bit_at(mid, q));
                            if dst_pos <= q < dst_pos + w {
                                crate::pack::lemma_split_position(
                                    q,
                                    rows_taken as int,
                                    q - dst_pos,
                                    w as int,
                                );
                                assert(self.rows_upto(i as int + 1)[p + r] == (
                                    i as int,
                                    start_off + r * b,
                                ));
                            }
                        }
                        src_pos = src_pos + b as usize;
                        dst_pos = dst_pos + w as usize;
                        r = r + 1;
                        rows_taken = rows_taken + 1;
                    }
                },
            }
            i += 1;
        }
        proof {
            self.lemma_rows_upto_len(i as int);
        }
        FixedWidthDataBlock { bits_per_value: w, data: dest, num_values: num_rows }
    }
}

} // verus!

verus! {

/// Sign extension: in a signed page, a row whose stored top bit (bit `b - 1`) is set decodes
/// to its `b` stored bits followed by ones up to the uncompressed width; with that bit clear,
/// or in an unsigned page, by zeros.
pub proof fn lemma_sign_extension(dec: BitpackedPageDecoder, skip: int, t: int, j: int)
    requires
        dec.wf(),
        0 <= skip,
        0 <= t,
        skip + t < dec.rows().len(),
        0 <= j < dec.uncompressed_bits_per_value,
    ensures
        ({
            let w = dec.uncompressed_bits_per_value as int;
            let b = dec.bits_per_value as int;
            let row = dec.rows()[skip + t];
            let stored = dec.data@[row.0]@;
            &&& j < b ==> dec.decoded_bit(skip, t * w + j) == bit_at(stored, row.1 + j)
            &&& j >= b ==> dec.decoded_bit(skip, t * w + j) == (dec.signed && bit_at(
                stored,
                row.1 + b - 1,
            ))
        }),
{
    let w = dec.uncompressed_bits_per_value as int;
    crate::pack::lemma_split_position(t * w + j, t, j, w);
}

} // verus!
