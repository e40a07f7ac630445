//! Bit-level view of byte buffers and the primitive that moves one value's bits.
use vstd::prelude::*;

verus! {

/// Bit `k` of a little-endian bitstream: bit `k % 8` of byte `k / 8`.
pub open spec fn bit_at(s: Seq<u8>, k: int) -> bool {
    (s[k / 8] >> ((k % 8) as u8)) & 1u8 == 1u8
}

/// Bit `j` of a value of `width` bits stored at bit `pos` of `s`, widened past `width`:
/// with the stored top bit when `signed` (two's complement), with zeros otherwise.
pub open spec fn ext_bit(s: Seq<u8>, pos: int, width: int, signed: bool, j: int) -> bool {
    if j < width {
        bit_at(s, pos + j)
    } else {
        signed && bit_at(s, pos + width - 1)
    }
}

/// Every bit of `s` in `[lo, hi)` is clear.
pub open spec fn bits_clear(s: Seq<u8>, lo: int, hi: int) -> bool {
    forall|k: int| lo <= k < hi ==> !#[trigger] bit_at(s, k)
}

/// Setting bit `p` of a byte leaves every other bit as it was.
pub proof fn lemma_set_bit(x: u8, p: u8, q: u8)
    requires
        p < 8,
        q < 8,
    ensures
        ((x | (1u8 << p)) >> q) & 1u8 == 1u8 <==> (q == p || (x >> q) & 1u8 == 1u8),
{
    assert(((x | (1u8 << p)) >> q) & 1u8 == 1u8 <==> (q == p || (x >> q) & 1u8 == 1u8))
        by (bit_vector)
        requires
            p < 8,
            q < 8,
    ;
}

/// A zero byte has no bit set.
pub proof fn lemma_zero_byte(q: u8)
    requires
        q < 8,
    ensures
        (0u8 >> q) & 1u8 != 1u8,
{
    assert((0u8 >> q) & 1u8 != 1u8) by (bit_vector)
        requires
            q < 8,
    ;
}

/// A buffer of zero bytes has every bit clear.
pub proof fn lemma_zeroed_clear(s: Seq<u8>)
    requires
        forall|i: int| 0 <= i < s.len() ==> s[i] == 0u8,
    ensures
        bits_clear(s, 0, 8 * s.len() as int),
{
    assert forall|k: int| 0 <= k < 8 * s.len() implies !#[trigger] bit_at(s, k) by {
        lemma_zero_byte((k % 8) as u8);
    }
}

/// Reads bit `k` of `s`.
pub fn get_bit(s: &Vec<u8>, k: usize) -> (r: bool)
    requires
        k < 8 * s@.len(),
    ensures
        r == bit_at(s@, k as int),
{
    ((s[k / 8] >> ((k % 8) as u8)) & 1u8) == 1u8
}

/// Sets bit `k` of `s`.
pub fn set_bit(s: &mut Vec<u8>, k: usize)
    requires
        k < 8 * old(s)@.len(),
    ensures
        final(s)@.len() == old(s)@.len(),
        forall|q: int|
            0 <= q < 8 * old(s)@.len() ==> #[trigger] bit_at(final(s)@, q) == (q == k || bit_at(
                old(s)@,
                q,
            )),
{
    let i = k / 8;
    let v = s[i] | (1u8 << ((k % 8) as u8));
    let ghost before = s@;
    s.set(i, v);
    assert forall|q: int| 0 <= q < 8 * before.len() implies #[trigger] bit_at(s@, q) == (q == k
        || bit_at(before, q)) by {
        if q / 8 == i as int {
            lemma_set_bit(before[i as int], (k % 8) as u8, (q % 8) as u8);
        }
    }
}

/// Whether the `num_bits`-bit value stored from bit `src_offset` of byte `src_idx` has its
/// top bit set: the sign of a signed value.
pub fn is_encoded_item_negative(src: &Vec<u8>, src_idx: usize, src_offset: usize, num_bits: usize) -> (r:
    bool)
    requires
        num_bits >= 1,
        src_offset < 8,
        8 * src_idx + src_offset + num_bits <= 8 * src@.len(),
        8 * src@.len() <= usize::MAX,
    ensures
        r == bit_at(src@, 8 * src_idx + src_offset + num_bits - 1),
{
    get_bit(src, 8 * src_idx + src_offset + num_bits - 1)
}

/// Writes the `width`-bit value found at bit `src_pos` of `src` as an `out_width`-bit value
/// at bit `dst_pos` of `dst`, sign-extending when `signed`. The target bits must be clear.
pub fn copy_bits(
    src: &Vec<u8>,
    src_pos: usize,
    width: usize,
    signed: bool,
    dst: &mut Vec<u8>,
    dst_pos: usize,
    out_width: usize,
)
    requires
        1 <= width <= out_width,
        src_pos + width <= 8 * src@.len(),
        8 * src@.len() <= usize::MAX,
        dst_pos + out_width <= 8 * old(dst)@.len(),
        dst_pos + out_width <= usize::MAX,
        bits_clear(old(dst)@, dst_pos as int, dst_pos + out_width),
    ensures
        final(dst)@.len() == old(dst)@.len(),
        forall|k: int|
            0 <= k < 8 * old(dst)@.len() ==> #[trigger] bit_at(final(dst)@, k) == if dst_pos <= k
                < dst_pos + out_width {
                ext_bit(src@, src_pos as int, width as int, signed, k - dst_pos)
            } else {
                bit_at(old(dst)@, k)
            },
{
    let ghost start = dst@;
    let sign = if signed {
        is_encoded_item_negative(src, src_pos / 8, src_pos % 8, width)
    } else {
        false
    };
    let mut j: usize = 0;
    while j < out_width
        invariant
            1 <= width <= out_width,
            src_pos + width <= 8 * src@.len(),
            8 * src@.len() <= usize::MAX,
            dst_pos + out_width <= 8 * start.len(),
            dst_pos + out_width <= usize::MAX,
            bits_clear(start, dst_pos as int, dst_pos + out_width),
            j <= out_width,
            dst@.len() == start.len(),
            sign == (signed && bit_at(src@, src_pos + width - 1)),
            forall|k: int|
                0 <= k < 8 * start.len() ==> #[trigger] bit_at(dst@, k) == if dst_pos <= k < dst_pos
                    + j {
                    ext_bit(src@, src_pos as int, width as int, signed, k - dst_pos)
                } else {
                    bit_at(start, k)
                },
        decreases out_width - j,
    {
        let b = if j < width {
            get_bit(src, src_pos + j)
        } else {
            sign
        };
        let ghost mid = dst@;
        if b {
            set_bit(dst, dst_pos + j);
        }
        assert forall|k: int| 0 <= k < 8 * start.len() implies #[trigger] bit_at(dst@, k) == if dst_pos
            <= k < dst_pos + j + 1 {
            ext_bit(src@, src_pos as int, width as int, signed, k - dst_pos)
        } else {
            bit_at(start, k)
        } by {
            assert(bit_at(mid, k) == bit_at(mid, k));
            if k == dst_pos + j {
                assert(!bit_at(start, k));
            }
        }
        j += 1;
    }
}

} // verus!
