//! Planning the byte ranges to fetch for the logical row ranges of a packed page.
use vstd::prelude::*;
use std::ops::Range;

use crate::chunked::ELEMS_PER_CHUNK;
use crate::bits::{bit_at, ext_bit};
use crate::block::FixedWidthDataBlock;
use crate::chunked::{bitpacked_for_non_neg_decode, groups_within, requested_rows};
use crate::decode::BitpackedPageDecoder;
use crate::encode::is_native_width;
use crate::error::Error;
use crate::encode::bytes_for_bits;

verus! {

/// Plans reads of a bit-granular packed page.
pub struct BitpackedScheduler {
    pub bits_per_value: u64,
    pub uncompressed_bits_per_value: u64,
    pub buffer_offset: u64,
    pub signed: bool,
}

/// The byte ranges to fetch for a list of row ranges, and where the values begin and end
/// within the first and last byte of each.
pub struct BitpackedSchedule {
    pub byte_ranges: Vec<Range<u64>>,
    pub buffer_bit_start_offsets: Vec<u8>,
    pub buffer_bit_end_offsets: Vec<Option<u8>>,
}

impl BitpackedScheduler {
    pub fn new(
        bits_per_value: u64,
        uncompressed_bits_per_value: u64,
        buffer_offset: u64,
        signed: bool,
    ) -> (r: Self)
        ensures
            r.bits_per_value == bits_per_value,
            r.uncompressed_bits_per_value == uncompressed_bits_per_value,
            r.buffer_offset == buffer_offset,
            r.signed == signed,
    {
        BitpackedScheduler { bits_per_value, uncompressed_bits_per_value, buffer_offset, signed }
    }

    /// Whether the rows `r` can be addressed without overflow.
    pub open spec fn range_in_bounds(&self, r: Range<u64>) -> bool {
        &&& r.start <= r.end
        &&& r.end * self.bits_per_value <= u64::MAX
        &&& self.buffer_offset + bytes_for_bits(r.end * self.bits_per_value) <= u64::MAX
    }

    /// The bytes that hold the rows `r`: from the byte of the first bit to the byte of the
    /// last bit, inclusive.
    pub open spec fn byte_range(&self, r: Range<u64>) -> Range<u64> {
        Range {
            start: (self.buffer_offset + r.start * self.bits_per_value / 8) as u64,
            end: (self.buffer_offset + bytes_for_bits(r.end * self.bits_per_value)) as u64,
        }
    }

    /// Bit offset of the first row of `r` within its first byte.
    pub open spec fn start_bit_offset(&self, r: Range<u64>) -> u8 {
        ((r.start * self.bits_per_value) % 8) as u8
    }

    /// Bit offset at which the last row of `r` ends within its last byte; `None` when it
    /// ends on a byte boundary.
    pub open spec fn end_bit_offset(&self, r: Range<u64>) -> Option<u8> {
        if (r.end * self.bits_per_value) % 8 != 0 {
            Some(((r.end * self.bits_per_value) % 8) as u8)
        } else {
            None
        }
    }

    /// One byte range per row range, in order, with its bit offsets.
    pub fn schedule_ranges(&self, ranges: &Vec<Range<u64>>) -> (r: BitpackedSchedule)
        requires
            forall|k: int| 0 <= k < ranges@.len() ==> self.range_in_bounds(#[trigger] ranges@[k]),
        ensures
            r.byte_ranges@.len() == ranges@.len(),
            r.buffer_bit_start_offsets@.len() == ranges@.len(),
            r.buffer_bit_end_offsets@.len() == ranges@.len(),
            forall|k: int|
                0 <= k < ranges@.len() ==> {
                    &&& #[trigger] r.byte_ranges@[k] == self.byte_range(ranges@[k])
                    &&& r.buffer_bit_start_offsets@[k] == self.start_bit_offset(ranges@[k])
                    &&& r.buffer_bit_end_offsets@[k] == self.end_bit_offset(ranges@[k])
                },
    {
        let mut byte_ranges: Vec<Range<u64>> = Vec::new();
        let mut starts: Vec<u8> = Vec::new();
        let mut ends: Vec<Option<u8>> = Vec::new();
        let mut i: usize = 0;
        while i < ranges.len()
            invariant
                i <= ranges@.len(),
                forall|k: int|
                    0 <= k < ranges@.len() ==> self.range_in_bounds(#[trigger] ranges@[k]),
                byte_ranges@.len() == i,
                starts@.len() == i,
                ends@.len() == i,
                forall|k: int|
                    0 <= k < i ==> {
                        &&& #[trigger] byte_ranges@[k] == self.byte_range(ranges@[k])
                        &&& starts@[k] == self.start_bit_offset(ranges@[k])
                        &&& ends@[k] == self.end_bit_offset(ranges@[k])
                    },
            decreases ranges@.len() - i,
        {
            let range = &ranges[i];
            assert(self.range_in_bounds(ranges@[i as int]));
            proof {
                assert(range.start * self.bits_per_value <= range.end * self.bits_per_value)
                    by (nonlinear_arith)
                    requires
                        range.start <= range.end,
                ;
            }
            let start_bit = range.start * self.bits_per_value;
            let end_bit = range.end * self.bits_per_value;
            let start_byte_offset = start_bit / 8;
            let mut end_byte_offset = end_bit / 8;
            if end_bit % 8 != 0 {
                end_byte_offset = end_byte_offset + 1;
                ends.push(Some((end_bit % 8) as u8));
            } else {
                ends.push(None);
            }
            starts.push((start_bit % 8) as u8);
            byte_ranges.push(
                Range {
                    start: self.buffer_offset + start_byte_offset,
                    end: self.buffer_offset + end_byte_offset,
                },
            );
            i += 1;
        }
        BitpackedSchedule {
            byte_ranges,
            buffer_bit_start_offsets: starts,
            buffer_bit_end_offsets: ends,
        }
    }

    /// The decoder over the buffers fetched for `schedule`, one per byte range.
    pub fn make_decoder(&self, schedule: BitpackedSchedule, data: Vec<Vec<u8>>) -> (r:
        BitpackedPageDecoder)
        ensures
            r.buffer_bit_start_offsets == schedule.buffer_bit_start_offsets,
            r.buffer_bit_end_offsets == schedule.buffer_bit_end_offsets,
            r.bits_per_value == self.bits_per_value,
            r.uncompressed_bits_per_value == self.uncompressed_bits_per_value,
            r.signed == self.signed,
            r.data == data,
    {
        BitpackedPageDecoder {
            buffer_bit_start_offsets: schedule.buffer_bit_start_offsets,
            buffer_bit_end_offsets: schedule.buffer_bit_end_offsets,
            bits_per_value: self.bits_per_value,
            uncompressed_bits_per_value: self.uncompressed_bits_per_value,
            signed: self.signed,
            data,
        }
    }
}

} // verus!

verus! {

/// Plans reads of a page packed in chunks of 1024 values.
pub struct BitpackedForNonNegScheduler {
    pub compressed_bit_width: u64,
    pub uncompressed_bits_per_value: u64,
    pub buffer_offset: u64,
}

/// The byte ranges to fetch and, for each, the row ranges that it serves.
pub struct NonNegSchedule {
    pub byte_ranges: Vec<Range<u64>>,
    pub bytes_idx_to_range_indices: Vec<Vec<Range<u64>>>,
}

impl BitpackedForNonNegScheduler {
    pub fn new(compressed_bit_width: u64, uncompressed_bits_per_value: u64, buffer_offset: u64) -> (r:
        Self)
        ensures
            r.compressed_bit_width == compressed_bit_width,
            r.uncompressed_bits_per_value == uncompressed_bits_per_value,
            r.buffer_offset == buffer_offset,
    {
        BitpackedForNonNegScheduler { compressed_bit_width, uncompressed_bits_per_value, buffer_offset }
    }

    /// Bytes of one chunk.
    pub open spec fn chunk_size(&self) -> int {
        1024 * self.compressed_bit_width / 8
    }

    /// First byte of the chunk that holds row `row`.
    pub open spec fn chunk_start(&self, row: int) -> int {
        self.buffer_offset + (row / 1024) * self.chunk_size()
    }

    /// The byte after the chunk that holds row `row`.
    pub open spec fn chunk_end(&self, row: int) -> int {
        self.chunk_start(row) + self.chunk_size()
    }

    /// Whether the chunk of row `row` can be addressed without overflow.
    pub open spec fn row_in_bounds(&self, row: int) -> bool {
        &&& 0 <= row
        &&& self.compressed_bit_width <= 64
        &&& self.chunk_end(row) <= u64::MAX
    }

    /// First byte of the chunk that holds `relative_row_num`.
    pub fn locate_chunk_start(&self, relative_row_num: u64) -> (r: u64)
        requires
            self.row_in_bounds(relative_row_num as int),
        ensures
            r == self.chunk_start(relative_row_num as int),
    {
        proof {
            self.lemma_chunk_bounds(relative_row_num as int);
        }
        let chunk_size = ELEMS_PER_CHUNK * self.compressed_bit_width / 8;
        self.buffer_offset + (relative_row_num / ELEMS_PER_CHUNK * chunk_size)
    }

    /// The byte after the chunk that holds `relative_row_num`.
    pub fn locate_chunk_end(&self, relative_row_num: u64) -> (r: u64)
        requires
            self.row_in_bounds(relative_row_num as int),
        ensures
            r == self.chunk_end(relative_row_num as int),
    {
        proof {
            self.lemma_chunk_bounds(relative_row_num as int);
        }
        let chunk_size = ELEMS_PER_CHUNK * self.compressed_bit_width / 8;
        self.buffer_offset + (relative_row_num / ELEMS_PER_CHUNK * chunk_size) + chunk_size
    }

    proof fn lemma_chunk_bounds(&self, row: int)
        requires
            self.row_in_bounds(row),
        ensures
            self.chunk_size() >= 0,
            (row / 1024) * self.chunk_size() >= 0,
    {
        assert((row / 1024) * self.chunk_size() >= 0) by (nonlinear_arith)
            requires
                row >= 0,
                self.chunk_size() >= 0,
        ;
    }

    /// Whether row range `cur` is read together with the one before it, `prev`: it starts
    /// in the chunk where `prev` ends.
    pub open spec fn joins(&self, prev: Range<u64>, cur: Range<u64>) -> bool {
        self.chunk_start(cur.start as int) == self.chunk_start(prev.end - 1)
    }

    /// The row ranges grouped by the byte range that serves them, in order.
    pub open spec fn plan(&self, rs: Seq<Range<u64>>) -> Seq<Seq<Range<u64>>>
        decreases rs.len(),
    {
        if rs.len() == 0 {
            Seq::empty()
        } else if rs.len() == 1 {
            seq![seq![rs[0]]]
        } else {
            let prev = self.plan(rs.drop_last());
            if self.joins(rs[rs.len() - 2], rs.last()) {
                prev.update(prev.len() - 1, prev.last().push(rs.last()))
            } else {
                prev.push(seq![rs.last()])
            }
        }
    }

    /// The bytes that serve a group of row ranges: from the chunk of its first row to the
    /// end of the chunk of its last row.
    pub open spec fn span(&self, g: Seq<Range<u64>>) -> Range<u64> {
        Range {
            start: self.chunk_start(g[0].start as int) as u64,
            end: self.chunk_end(g.last().end - 1) as u64,
        }
    }

    /// Whether the row ranges can be planned: non-empty ranges whose chunks can be addressed.
    pub open spec fn ranges_valid(&self, rs: Seq<Range<u64>>) -> bool {
        &&& rs.len() > 0
        &&& forall|k: int|
            0 <= k < rs.len() ==> {
                &&& #[trigger] rs[k].start < rs[k].end
                &&& self.row_in_bounds(rs[k].end - 1)
            }
    }

    proof fn lemma_plan_nonempty(&self, rs: Seq<Range<u64>>)
        requires
            rs.len() > 0,
        ensures
            self.plan(rs).len() > 0,
            forall|g: int| 0 <= g < self.plan(rs).len() ==> #[trigger] self.plan(rs)[g].len() > 0,
            self.plan(rs).last().last() == rs.last(),
        decreases rs.len(),
    {
        if rs.len() > 1 {
            self.lemma_plan_nonempty(rs.drop_last());
        }
    }

    /// Groups the row ranges into byte ranges: a range joins the byte range of the range
    /// before it when it starts in the chunk where that one ends; otherwise it opens a new one.
    pub fn schedule_ranges(&self, ranges: &Vec<Range<u64>>) -> (r: NonNegSchedule)
        requires
            self.ranges_valid(ranges@),
        ensures
            r.byte_ranges@.len() == self.plan(ranges@).len(),
            r.bytes_idx_to_range_indices@.len() == self.plan(ranges@).len(),
            forall|g: int|
                0 <= g < self.plan(ranges@).len() ==> {
                    &&& #[trigger] r.bytes_idx_to_range_indices@[g]@ == self.plan(ranges@)[g]
                    &&& r.byte_ranges@[g] == self.span(self.plan(ranges@)[g])
                },
    {
        let first = Range { start: ranges[0].start, end: ranges[0].end };
        assert(first.start < first.end && self.row_in_bounds(first.end - 1) && self.row_in_bounds(
            first.start as int,
        )) by {
            assert(ranges@[0].start < ranges@[0].end);
            self.lemma_chunk_mono(first.start as int, first.end - 1);
        }
        let mut cur_start = self.locate_chunk_start(first.start);
        let mut cur_end = self.locate_chunk_end(first.end - 1);
        let mut cur_group: Vec<Range<u64>> = vec![first];
        let mut byte_ranges: Vec<Range<u64>> = Vec::new();
        let mut groups: Vec<Vec<Range<u64>>> = Vec::new();
        let mut i: usize = 1;
        proof {
            assert(ranges@.take(1) =~= seq![ranges@[0]]);
        }
        while i < ranges.len()
            invariant
                self.ranges_valid(ranges@),
                1 <= i <= ranges@.len(),
                groups@.len() + 1 == self.plan(ranges@.take(i as int)).len(),
                byte_ranges@.len() == groups@.len(),
                forall|g: int|
                    0 <= g < groups@.len() ==> {
                        &&& #[trigger] groups@[g]@ == self.plan(ranges@.take(i as int))[g]
                        &&& byte_ranges@[g] == self.span(self.plan(ranges@.take(i as int))[g])
                    },
                cur_group@ == self.plan(ranges@.take(i as int)).last(),
                cur_start == self.span(cur_group@).start,
                cur_end == self.span(cur_group@).end,
            decreases ranges@.len() - i,
        {
            let ghost pre = ranges@.take(i as int);
            let ghost post = ranges@.take(i as int + 1);
            proof {
                assert(post.drop_last() =~= pre);
                assert(post.last() == ranges@[i as int]);
                assert(post[post.len() - 2] == ranges@[i - 1]);
                self.lemma_plan_nonempty(pre);
                assert(ranges@[i as int].start < ranges@[i as int].end);
                assert(ranges@[i - 1].start < ranges@[i - 1].end);
                self.lemma_chunk_mono(ranges@[i as int].start as int, ranges@[i as int].end - 1);
                self.lemma_chunk_mono(ranges@[i - 1].start as int, ranges@[i - 1].end - 1);
            }
            let range = Range { start: ranges[i].start, end: ranges[i].end };
            let this_start = self.locate_chunk_start(range.start);
            let this_end = self.locate_chunk_end(range.end - 1);
            let prev_end_chunk = self.locate_chunk_start(ranges[i - 1].end - 1);
            if this_start == prev_end_chunk {
                cur_group.push(range);
                cur_end = this_end;
            } else {
                byte_ranges.push(Range { start: cur_start, end: cur_end });
                groups.push(cur_group);
                cur_group = vec![range];
                cur_start = this_start;
                cur_end = this_end;
            }
            i += 1;
        }
        proof {
            assert(ranges@.take(i as int) =~= ranges@);
        }
        byte_ranges.push(Range { start: cur_start, end: cur_end });
        groups.push(cur_group);
        NonNegSchedule { byte_ranges, bytes_idx_to_range_indices: groups }
    }

    proof fn lemma_chunk_mono(&self, a: int, c: int)
        requires
            0 <= a <= c,
            self.row_in_bounds(c),
        ensures
            self.row_in_bounds(a),
            self.chunk_start(a) <= self.chunk_start(c),
    {
        vstd::arithmetic::div_mod::lemma_div_is_ordered(a, c, 1024);
        assert((a / 1024) * self.chunk_size() <= (c / 1024) * self.chunk_size()) by (nonlinear_arith)
            requires
                a / 1024 <= c / 1024,
                self.chunk_size() >= 0,
        ;
        assert((a / 1024) * self.chunk_size() >= 0) by (nonlinear_arith)
            requires
                a >= 0,
                self.chunk_size() >= 0,
        ;
    }
}

} // verus!

verus! {

/// Decoder for a page packed in chunks: the requested rows, already unpacked.
pub struct BitpackedForNonNegPageDecoder {
    /// Bits of one decoded value: 8, 16, 32 or 64.
    pub uncompressed_bits_per_value: u64,
    pub decompressed_buf: Vec<u8>,
}

impl BitpackedForNonNegPageDecoder {
    /// The `num_rows` rows after the first `rows_to_skip` of the unpacked rows.
    pub fn decode(&self, rows_to_skip: u64, num_rows: u64) -> (r: Result<FixedWidthDataBlock, Error>)
        requires
            is_native_width(self.uncompressed_bits_per_value) ==> (rows_to_skip + num_rows)
                * self.uncompressed_bits_per_value <= 8 * self.decompressed_buf@.len(),
        ensures
            !is_native_width(self.uncompressed_bits_per_value) ==> r == Err::<
                FixedWidthDataBlock,
                Error,
            >(Error::UnsupportedType),
            is_native_width(self.uncompressed_bits_per_value) ==> {
                let wb = self.uncompressed_bits_per_value / 8;
                &&& r matches Ok(f)
                &&& f.bits_per_value == self.uncompressed_bits_per_value
                &&& f.num_values == num_rows
                &&& f.data@ == self.decompressed_buf@.subrange(
                    rows_to_skip * wb,
                    (rows_to_skip + num_rows) * wb,
                )
            },
    {
        let w = self.uncompressed_bits_per_value;
        if !(w == 8 || w == 16 || w == 32 || w == 64) {
            return Err(Error::UnsupportedType);
        }
        let wb = w / 8;
        proof {
            assert((rows_to_skip + num_rows) * wb <= self.decompressed_buf@.len()
                && rows_to_skip * wb <= (rows_to_skip + num_rows) * wb
                && rows_to_skip + num_rows <= (rows_to_skip + num_rows) * wb) by (nonlinear_arith)
                requires
                    (rows_to_skip + num_rows) * w <= 8 * self.decompressed_buf@.len(),
                    w == 8 * wb,
                    wb >= 1,
            ;
        }
        let _buf_len = self.decompressed_buf.len();
        let start = (rows_to_skip * wb) as usize;
        let end = ((rows_to_skip + num_rows) * wb) as usize;
        let mut data: Vec<u8> = Vec::new();
        let mut i: usize = start;
        while i < end
            invariant
                start <= i <= end,
                end <= self.decompressed_buf@.len(),
                data@ == self.decompressed_buf@.subrange(start as int, i as int),
            decreases end - i,
        {
            data.push(self.decompressed_buf[i]);
            i += 1;
            assert(data@ =~= self.decompressed_buf@.subrange(start as int, i as int));
        }
        Ok(FixedWidthDataBlock { bits_per_value: w, data, num_values: num_rows })
    }
}

impl BitpackedForNonNegScheduler {
    /// The decoder over the buffers fetched for `schedule`, one per byte range, which
    /// unpacks the `num_rows` rows that the schedule asks for.
    pub fn make_decoder(&self, schedule: NonNegSchedule, data: Vec<Vec<u8>>, num_rows: u64) -> (r:
        BitpackedForNonNegPageDecoder)
        requires
            is_native_width(self.uncompressed_bits_per_value),
            1 <= self.compressed_bit_width <= self.uncompressed_bits_per_value,
            groups_within(
                data@,
                schedule.bytes_idx_to_range_indices@,
                self.compressed_bit_width as int,
            ),
            num_rows == requested_rows(
                schedule.bytes_idx_to_range_indices@,
                self.compressed_bit_width as int,
                data@.len() as int,
            ).len(),
            num_rows * self.uncompressed_bits_per_value <= usize::MAX,
        ensures
            r.uncompressed_bits_per_value == self.uncompressed_bits_per_value,
            r.decompressed_buf@.len() * 8 == num_rows * self.uncompressed_bits_per_value,
            forall|q: int|
                0 <= q < num_rows * self.uncompressed_bits_per_value ==> {
                    let w = self.uncompressed_bits_per_value as int;
                    let row = requested_rows(
                        schedule.bytes_idx_to_range_indices@,
                        self.compressed_bit_width as int,
                        data@.len() as int,
                    )[q / w];
                    #[trigger] bit_at(r.decompressed_buf@, q) == ext_bit(
                        data@[row.0]@,
                        row.1,
                        self.compressed_bit_width as int,
                        false,
                        q % w,
                    )
                },
    {
        let buf = bitpacked_for_non_neg_decode(
            self.compressed_bit_width,
            self.uncompressed_bits_per_value,
            &data,
            &schedule.bytes_idx_to_range_indices,
            num_rows,
        );
        BitpackedForNonNegPageDecoder {
            uncompressed_bits_per_value: self.uncompressed_bits_per_value,
            decompressed_buf: buf,
        }
    }

    /// A row range that starts in the chunk where the range before it ends is read with
    /// it, in one byte range; any other pair of ranges is read as two.
    pub proof fn lemma_coalescing(&self, a: Range<u64>, c: Range<u64>)
        ensures
            self.plan(seq![a, c]).len() == 1 <==> self.joins(a, c),
            self.joins(a, c) ==> self.plan(seq![a, c]) == seq![seq![a, c]],
            !self.joins(a, c) ==> self.plan(seq![a, c]) == seq![seq![a], seq![c]],
    {
        let rs = seq![a, c];
        assert(rs.drop_last() =~= seq![a]);
        assert(self.plan(seq![a]) == seq![seq![a]]);
        if self.joins(a, c) {
            assert(seq![a].push(c) =~= seq![a, c]);
            assert(seq![seq![a]].update(0, seq![a].push(c)) =~= seq![seq![a, c]]);
        } else {
            assert(seq![seq![a]].push(seq![c]) =~= seq![seq![a], seq![c]]);
        }
    }

    /// A single row range `s..e` is read as one byte range that runs from the start of the
    /// chunk holding row `s` to the end of the chunk holding row `e - 1`: no chunk before or
    /// after them, and no more than `ceil((e - s + 1024) / 1024)` chunks.
    pub proof fn lemma_single_range(&self, r: Range<u64>)
        requires
            r.start < r.end,
            self.compressed_bit_width >= 1,
            self.row_in_bounds(r.end - 1),
        ensures
            self.plan(seq![r]) == seq![seq![r]],
            self.span(seq![r]).start == self.chunk_start(r.start as int),
            self.span(seq![r]).end == self.chunk_end(r.end - 1),
            self.chunk_end(r.end - 1) - self.chunk_start(r.start as int) == ((r.end - 1) / 1024
                - r.start / 1024 + 1) * self.chunk_size(),
            (r.end - 1) / 1024 - r.start / 1024 + 1 <= (r.end - r.start + 1024 + 1023) / 1024,
            (r.start / 1024) * 1024 <= r.start,
            r.end - 1 < ((r.end - 1) / 1024 + 1) * 1024,
    {
        let s = r.start as int;
        let e1 = r.end - 1;
        let cs = self.chunk_size();
        self.lemma_chunk_mono(s, e1);
        assert((e1 / 1024) * cs + cs - (s / 1024) * cs == (e1 / 1024 - s / 1024 + 1) * cs)
            by (nonlinear_arith);
        vstd::arithmetic::div_mod::lemma_fundamental_div_mod(s, 1024);
        vstd::arithmetic::div_mod::lemma_fundamental_div_mod(e1, 1024);
        let d = r.end - r.start + 2047;
        vstd::arithmetic::div_mod::lemma_fundamental_div_mod(d, 1024);
    }
}

} // verus!
