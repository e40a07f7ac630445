//! Reading back what the bit-granular encoder wrote.
use vstd::prelude::*;
use std::ops::Range;
use vstd::arithmetic::div_mod::{lemma_fundamental_div_mod, lemma_fundamental_div_mod_converse};

use crate::bits::{bit_at, ext_bit};
use crate::block::{DataBlock, FixedWidthDataBlock};
use crate::decode::BitpackedPageDecoder;
use crate::encode::{bitpacked_block, bitpacked_encode_error, fits_in};
use crate::pack::lemma_split_position;
use crate::chunked::{
    chunk_base, chunked_block, chunked_fits_memory, chunked_fixed_error, group_rows,
    groups_within, requested_rows,
};
use crate::encode::is_native_width;
use crate::schedule::{BitpackedForNonNegScheduler, BitpackedScheduler};

verus! {

/// Decoding a bit-granular page returns the values that were encoded, for values that fit
/// in the packed width: a page encoded from `u` into `b` bits, fetched whole as the one
/// byte range that the scheduler plans for rows `0..n`, decodes after skipping `skip` rows
/// to exactly the bits of `u` from row `skip` on.
pub proof fn lemma_bitpacked_round_trip(
    u: FixedWidthDataBlock,
    b: u64,
    signed: bool,
    f: FixedWidthDataBlock,
    sched: BitpackedScheduler,
    dec: BitpackedPageDecoder,
    skip: int,
)
    requires
        bitpacked_encode_error(&DataBlock::FixedWidth(u), b) is None,
        fits_in(u.data@, u.bits_per_value as int, b as int, signed),
        bitpacked_block(u, b, f),
        sched.bits_per_value == b,
        sched.uncompressed_bits_per_value == u.bits_per_value,
        sched.buffer_offset == 0,
        sched.signed == signed,
        dec.bits_per_value == b,
        dec.uncompressed_bits_per_value == u.bits_per_value,
        dec.signed == signed,
        dec.data@.len() == 1,
        dec.data@[0]@ == f.data@,
        dec.buffer_bit_start_offsets@ == seq![
            sched.start_bit_offset(Range { start: 0, end: u.num_values }),
        ],
        dec.buffer_bit_end_offsets@ == seq![
            sched.end_bit_offset(Range { start: 0, end: u.num_values }),
        ],
        0 <= skip <= u.num_values,
        8 * u.data@.len() <= usize::MAX,
    ensures
        sched.byte_range(Range { start: 0, end: u.num_values }) == (Range {
            start: 0,
            end: f.data@.len() as u64,
        }),
        dec.wf(),
        dec.rows().len() == u.num_values,
        forall|q: int|
            0 <= q < (u.num_values - skip) * u.bits_per_value ==> dec.decoded_bit(skip, q)
                == bit_at(u.data@, skip * u.bits_per_value + q),
{
    let n = u.num_values as int;
    let w = u.bits_per_value as int;
    let bb = b as int;
    let nb = n * bb;
    assert(0 * bb == 0) by (nonlinear_arith);
    assert(sched.start_bit_offset(Range { start: 0, end: u.num_values }) == 0);
    lemma_fundamental_div_mod(nb, 8);
    assert(8 * f.data@.len() - crate::decode::end_pad(dec.buffer_bit_end_offsets@[0]) == nb);
    assert(nb <= n * w) by (nonlinear_arith)
        requires
            bb <= w,
            n >= 0,
            nb == n * bb,
    ;
    assert(8 * f.data@.len() <= usize::MAX && 8 * f.data@.len() <= u64::MAX) by {
        let ul = u.data@.len() as int;
        assert(ul * 8 == n * w);
        vstd::arithmetic::div_mod::lemma_div_is_ordered(nb + 7, 8 * ul + 7, 8);
        lemma_fundamental_div_mod_converse(8 * ul + 7, 8, ul, 7);
    }
    assert(dec.wf());
    lemma_fundamental_div_mod_converse(nb, bb, n, 0);
    assert(dec.rows_in(0) == n);
    assert(dec.rows_upto(0) == Seq::<(int, int)>::empty());
    assert(dec.rows() == dec.rows_upto(0) + Seq::new(
        n as nat,
        |r: int| (0int, dec.buffer_bit_start_offsets@[0] as int + r * bb),
    ));
    assert forall|q: int| 0 <= q < (n - skip) * w implies dec.decoded_bit(skip, q) == bit_at(
        u.data@,
        skip * w + q,
    ) by {
        let t = skip + q / w;
        lemma_fundamental_div_mod(q, w);
        assert(q / w < n - skip) by (nonlinear_arith)
            requires
                q == w * (q / w) + q % w,
                0 <= q % w,
                q < (n - skip) * w,
                w > 0,
        ;
        assert(skip * w + q == t * w + q % w) by (nonlinear_arith)
            requires
                q == w * (q / w) + q % w,
                t == skip + q / w,
        ;
        lemma_split_position(skip * w + q, t, q % w, w);
        assert(dec.rows()[t] == (0int, t * bb));
        assert(t * w + q % w < n * w) by (nonlinear_arith)
            requires
                t < n,
                q % w < w,
        ;
        assert(skip * w + q < 8 * u.data@.len());
        assert(dec.decoded_bit(skip, q) == crate::bits::ext_bit(
            f.data@,
            t * bb,
            bb,
            signed,
            q % w,
        ));
        assert(t * bb + bb <= nb) by (nonlinear_arith)
            requires
                t < n,
                bb > 0,
                nb == n * bb,
        ;
        if q % w < bb {
            lemma_split_position(t * bb + q % w, t, q % w, bb);
            assert(bit_at(f.data@, t * bb + q % w) == crate::pack::packed_bit(
                u.data@,
                w,
                bb,
                t * bb + q % w,
            ));
        } else {
            lemma_split_position(t * bb + bb - 1, t, bb - 1, bb);
            assert(bit_at(f.data@, t * bb + bb - 1) == crate::pack::packed_bit(
                u.data@,
                w,
                bb,
                t * bb + bb - 1,
            ));
            assert(bit_at(u.data@, skip * w + q) == bit_at(u.data@, skip * w + q));
        }
    }
}

} // verus!

verus! {

/// Decoding a chunked page returns the values that were encoded, for non-negative values
/// that fit in the packed width: the scheduler reads rows `0..n` of a page encoded from `u`
/// as one byte range, the whole page, and the rows unpacked from it are the values of `u`.
pub proof fn lemma_chunked_round_trip(
    u: FixedWidthDataBlock,
    w: u64,
    b: u64,
    f: FixedWidthDataBlock,
    sched: BitpackedForNonNegScheduler,
    groups: Seq<Vec<Range<u64>>>,
    data: Seq<Vec<u8>>,
)
    requires
        is_native_width(w),
        chunked_fixed_error(u, w, b) is None,
        chunked_fits_memory(u, b as int),
        fits_in(u.data@, w as int, b as int, false),
        chunked_block(u, w, b, f),
        u.num_values > 0,
        sched.compressed_bit_width == b,
        sched.buffer_offset == 0,
        sched.row_in_bounds(u.num_values - 1),
        groups.len() == 1,
        groups[0]@ == seq![Range { start: 0, end: u.num_values }],
        data.len() == 1,
        data[0]@ == f.data@,
    ensures
        sched.plan(seq![Range { start: 0, end: u.num_values }]) == seq![groups[0]@],
        sched.span(groups[0]@) == (Range { start: 0, end: f.data@.len() as u64 }),
        groups_within(data, groups, b as int),
        requested_rows(groups, b as int, 1).len() == u.num_values,
        forall|q: int|
            0 <= q < u.num_values * w ==> {
                let row = requested_rows(groups, b as int, 1)[q / (w as int)];
                ext_bit(data[row.0]@, row.1, b as int, false, q % (w as int)) == #[trigger] bit_at(
                    u.data@,
                    q,
                )
            },
{
    let n = u.num_values as int;
    let ww = w as int;
    let bb = b as int;
    let g = groups[0]@;
    let r = Range { start: 0u64, end: u.num_values };
    assert(g[0] == r);
    assert(chunk_base(g) == 0);
    assert(u.data@.len() * 8 == n * ww);
    lemma_fundamental_div_mod(n + 1023, 1024);
    lemma_fundamental_div_mod(n - 1, 1024);
    assert(n * bb <= 8 * f.data@.len()) by (nonlinear_arith)
        requires
            n + 1023 == 1024 * ((n + 1023) / 1024) + (n + 1023) % 1024,
            (n + 1023) % 1024 < 1024,
            f.data@.len() == ((n + 1023) / 1024) * (128 * bb),
            bb >= 1,
    ;
    assert((n - 1) / 1024 + 1 == (n + 1023) / 1024);
    assert(sched.chunk_size() == 128 * bb);
    assert(((n - 1) / 1024) * (128 * bb) + 128 * bb == ((n + 1023) / 1024) * (128 * bb))
        by (nonlinear_arith)
        requires
            (n - 1) / 1024 + 1 == (n + 1023) / 1024,
    ;
    assert(0int / 1024 == 0);
    assert(g.last() == r);
    let rr = crate::chunked::range_rows(0, 0, r, bb);
    assert(group_rows(0, g, bb, 0) == Seq::<(int, int)>::empty());
    assert(group_rows(0, g, bb, 1) =~= rr);
    assert(requested_rows(groups, bb, 0) == Seq::<(int, int)>::empty());
    assert(requested_rows(groups, bb, 1) =~= rr);
    assert forall|q: int| 0 <= q < n * ww implies {
        let row = requested_rows(groups, bb, 1)[q / ww];
        ext_bit(data[row.0]@, row.1, bb, false, q % ww) == #[trigger] bit_at(u.data@, q)
    } by {
        let t = q / ww;
        lemma_fundamental_div_mod(q, ww);
        assert(t < n) by (nonlinear_arith)
            requires
                q == ww * t + q % ww,
                0 <= q % ww,
                q < n * ww,
                ww > 0,
        ;
        assert(q == t * ww + q % ww) by (nonlinear_arith)
            requires
                q == ww * t + q % ww,
        ;
        assert(rr[t] == (0int, (0 + t - 0) * bb));
        if q % ww < bb {
            let k = t * bb + q % ww;
            assert(t * bb + bb <= n * bb) by (nonlinear_arith)
                requires
                    t < n,
                    bb >= 0,
            ;
            lemma_split_position(k, t, q % ww, bb);
            assert(bit_at(f.data@, k) == crate::pack::packed_bit(u.data@, ww, bb, k));
        } else {
            assert(bit_at(u.data@, q) == bit_at(u.data@, q));
        }
    }
    assert(groups_within(data, groups, bb)) by {
        assert(groups[0]@.len() > 0);
        assert forall|k: int| 0 <= k < groups[0]@.len() implies {
            &&& chunk_base(groups[0]@) <= #[trigger] groups[0]@[k].start <= groups[0]@[k].end
            &&& (groups[0]@[k].end - chunk_base(groups[0]@)) * bb <= 8 * data[0]@.len()
        } by {
            assert(k == 0);
        }
    }
    let rs = seq![r];
    assert(sched.plan(rs) == seq![seq![rs[0]]]);
    assert(seq![rs[0]] =~= g);
}

} // verus!
