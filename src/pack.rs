//! The bit-granular packer: dense bitstreams of `b`-bit values.
use vstd::prelude::*;
use vstd::arithmetic::div_mod::{lemma_fundamental_div_mod, lemma_fundamental_div_mod_converse};

use crate::bits::{bit_at, bits_clear, copy_bits, ext_bit};

verus! {

/// Bit `t` of the dense stream that packs the `w`-bit little-endian values of `src`
/// into `b` bits each: bit `t % b` of value `t / b`.
pub open spec fn packed_bit(src: Seq<u8>, w: int, b: int, t: int) -> bool {
    bit_at(src, (t / b) * w + t % b)
}

/// Number of `w`-bit values held by `src`.
pub open spec fn num_values(src: Seq<u8>, w: int) -> int {
    (8 * (src.len() as int)) / w
}

pub proof fn lemma_split_position(t: int, i: int, j: int, b: int)
    requires
        b > 0,
        0 <= j < b,
        t == i * b + j,
    ensures
        t / b == i,
        t % b == j,
{
    lemma_fundamental_div_mod_converse(t, b, i, j);
}

/// Packs the `uncompressed_bits`-wide little-endian values of `src` into `num_bits` bits
/// each, writing them into `dst` from bit `8 * dst_idx + dst_offset` on and advancing that
/// cursor past the last bit written. The target bits of `dst` must be clear.
pub fn pack_bits(
    src: &Vec<u8>,
    uncompressed_bits: u64,
    num_bits: u64,
    dst: &mut Vec<u8>,
    dst_idx: &mut usize,
    dst_offset: &mut u8,
)
    requires
        uncompressed_bits == 8 || uncompressed_bits == 16 || uncompressed_bits == 32
            || uncompressed_bits == 64,
        1 <= num_bits <= uncompressed_bits,
        (8 * (src@.len() as int)) % (uncompressed_bits as int) == 0,
        8 * src@.len() <= usize::MAX,
        *old(dst_offset) < 8,
        8 * old(dst)@.len() <= usize::MAX,
        8 * *old(dst_idx) + *old(dst_offset) + num_values(src@, uncompressed_bits as int)
            * num_bits <= 8 * old(dst)@.len(),
        bits_clear(
            old(dst)@,
            8 * *old(dst_idx) + *old(dst_offset),
            8 * *old(dst_idx) + *old(dst_offset) + num_values(src@, uncompressed_bits as int)
                * num_bits,
        ),
    ensures
        final(dst)@.len() == old(dst)@.len(),
        *final(dst_offset) < 8,
        8 * *final(dst_idx) + *final(dst_offset) == 8 * *old(dst_idx) + *old(dst_offset)
            + num_values(src@, uncompressed_bits as int) * num_bits,
        forall|k: int|
            0 <= k < 8 * old(dst)@.len() ==> #[trigger] bit_at(final(dst)@, k) == {
                let start = 8 * *old(dst_idx) + *old(dst_offset);
                if start <= k < start + num_values(src@, uncompressed_bits as int) * num_bits {
                    packed_bit(src@, uncompressed_bits as int, num_bits as int, k - start)
                } else {
                    bit_at(old(dst)@, k)
                }
            },
{
    let ghost d0 = dst@;
    let ghost w = uncompressed_bits as int;
    let ghost b = num_bits as int;
    let ghost n = num_values(src@, w);
    let start: usize = 8 * *dst_idx + *dst_offset as usize;
    let w_bits = uncompressed_bits as usize;
    let b_bits = num_bits as usize;
    let bit_len: usize = 8 * src.len();
    proof {
        lemma_fundamental_div_mod(8 * (src@.len() as int), w);
        assert(w * n == n * w) by (nonlinear_arith);
    }
    let mut src_pos: usize = 0;
    let mut dst_pos: usize = start;
    let ghost mut i: int = 0;
    while src_pos < bit_len
        invariant
            w == uncompressed_bits,
            b == num_bits,
            w_bits == w,
            b_bits == b,
            8 <= w <= 64,
            1 <= b <= w,
            bit_len == 8 * src@.len(),
            bit_len == n * w,
            bit_len <= usize::MAX,
            0 <= i <= n,
            src_pos == i * w,
            dst_pos == start + i * b,
            start + n * b <= 8 * d0.len(),
            8 * d0.len() <= usize::MAX,
            bits_clear(d0, start as int, start + n * b),
            dst@.len() == d0.len(),
            forall|k: int|
                0 <= k < 8 * d0.len() ==> #[trigger] bit_at(dst@, k) == if start <= k < start + i
                    * b {
                    packed_bit(src@, w, b, k - start)
                } else {
                    bit_at(d0, k)
                },
        decreases bit_len - src_pos,
    {
        proof {
            assert(i < n) by (nonlinear_arith)
                requires
                    src_pos == i * w,
                    src_pos < bit_len,
                    bit_len == n * w,
                    w > 0,
            ;
            assert((i + 1) * w <= n * w && (i + 1) * b <= n * b) by (nonlinear_arith)
                requires
                    i < n,
                    w > 0,
                    b > 0,
            ;
            assert(i * b + b == (i + 1) * b && i * w + w == (i + 1) * w) by (nonlinear_arith);
        }
        let ghost mid = dst@;
        copy_bits(src, src_pos, b_bits, false, dst, dst_pos, b_bits);
        assert forall|k: int| 0 <= k < 8 * d0.len() implies #[trigger] bit_at(dst@, k) == if start
            <= k < start + (i + 1) * b {
            packed_bit(src@, w, b, k - start)
        } else {
            bit_at(d0, k)
        } by {
            assert(bit_at(mid, k) == bit_at(mid, k));
            if dst_pos <= k < dst_pos + b {
                lemma_split_position(k - start, i, k - dst_pos, b);
                assert(ext_bit(src@, src_pos as int, b, false, k - dst_pos) == bit_at(
                    src@,
                    src_pos + (k - dst_pos),
                ));
            }
        }
        src_pos = src_pos + w_bits;
        dst_pos = dst_pos + b_bits;
        proof {
            i = i + 1;
        }
    }
    proof {
        assert(i == n) by (nonlinear_arith)
            requires
                src_pos == i * w,
                src_pos >= bit_len,
                bit_len == n * w,
                i <= n,
                w > 0,
        ;
    }
    *dst_idx = dst_pos / 8;
    *dst_offset = (dst_pos % 8) as u8;
}

} // verus!
