//! Choosing the fewest bits that represent every value of an integer array.
use vstd::prelude::*;
use vstd::std_specs::bits::u64_leading_zeros;

use crate::block::DataType;

verus! {

/// An integer array: its element type and, for each row, the value's bit pattern in the
/// low bits of a `u64` (two's complement for signed types), or `None` for a null.
pub struct IntegerArray {
    pub data_type: DataType,
    pub values: Vec<Option<u64>>,
}

/// `2^w - 1`: the low `w` bits set.
pub open spec fn low_mask(w: u64) -> u64 {
    u64::MAX >> ((64 - w) as u64)
}

impl IntegerArray {
    /// Every value of an integer type lies within the type's width.
    pub open spec fn wf(&self) -> bool {
        match self.data_type.spec_int_width() {
            Some(w) => forall|i: int|
                0 <= i < self.values@.len() ==> (#[trigger] self.values@[i] matches Some(v) ==> v
                    & !low_mask(w) == 0),
            None => true,
        }
    }
}

/// Bits needed for `x` as an unsigned number: 64 minus its leading zeros.
pub open spec fn significant_bits(x: u64) -> int {
    64 - u64_leading_zeros(x)
}

/// Bitwise or of the non-null values.
pub open spec fn or_values(s: Seq<Option<u64>>) -> u64
    decreases s.len(),
{
    if s.len() == 0 {
        0
    } else {
        match s.last() {
            Some(v) => or_values(s.drop_last()) | v,
            None => or_values(s.drop_last()),
        }
    }
}

/// Whether some value is not null.
pub open spec fn has_value(s: Seq<Option<u64>>) -> bool {
    exists|i: int| 0 <= i < s.len() && #[trigger] s[i] is Some
}

/// Whether the `w`-bit pattern `v` is negative: its top bit is set.
pub open spec fn is_negative(v: u64, w: u64) -> bool {
    (v >> ((w - 1) as u64)) & 1u64 == 1u64
}

/// Bits that hold `v` below its sign: `w` less its leading zeros when non-negative, `w`
/// less its leading ones when negative.
pub open spec fn magnitude_bits(v: u64, w: u64) -> int {
    if is_negative(v, w) {
        significant_bits(!v & low_mask(w))
    } else {
        significant_bits(v)
    }
}

/// The largest `magnitude_bits` over the non-null values (0 when there are none).
pub open spec fn max_magnitude_bits(s: Seq<Option<u64>>, w: u64) -> int
    decreases s.len(),
{
    if s.len() == 0 {
        0
    } else {
        let r = max_magnitude_bits(s.drop_last(), w);
        match s.last() {
            Some(v) => if magnitude_bits(v, w) > r {
                magnitude_bits(v, w)
            } else {
                r
            },
            None => r,
        }
    }
}

/// Whether some non-null value is negative.
pub open spec fn any_negative(s: Seq<Option<u64>>, w: u64) -> bool {
    exists|i: int| 0 <= i < s.len() && (#[trigger] s[i] matches Some(v) && is_negative(v, w))
}

/// `max(1, x)`.
pub open spec fn at_least_one(x: int) -> int {
    if x < 1 {
        1
    } else {
        x
    }
}

/// What the unsigned analysis picks for values `s`.
pub open spec fn unsigned_params(s: Seq<Option<u64>>) -> Option<BitpackParams> {
    if has_value(s) {
        Some(
            BitpackParams {
                num_bits: at_least_one(significant_bits(or_values(s))) as u64,
                signed: false,
            },
        )
    } else {
        None
    }
}

/// What the signed analysis picks for values `s` of a `w`-bit type.
pub open spec fn signed_params(s: Seq<Option<u64>>, w: u64) -> Option<BitpackParams> {
    if has_value(s) {
        Some(
            BitpackParams {
                num_bits: at_least_one(
                    max_magnitude_bits(s, w) + if any_negative(s, w) {
                        1int
                    } else {
                        0int
                    },
                ) as u64,
                signed: any_negative(s, w),
            },
        )
    } else {
        None
    }
}

/// Parameters for bit-packing an array.
#[derive(Debug, Clone, Copy, PartialEq, Eq, Structural)]
pub struct BitpackParams {
    pub num_bits: u64,
    pub signed: bool,
}

/// The bitwise or of the non-null values, `None` when every value is null.
pub fn bit_or(values: &Vec<Option<u64>>) -> (r: Option<u64>)
    ensures
        r == if has_value(values@) {
            Some(or_values(values@))
        } else {
            None::<u64>
        },
{
    let mut acc: u64 = 0;
    let mut seen = false;
    let mut i: usize = 0;
    while i < values.len()
        invariant
            i <= values@.len(),
            acc == or_values(values@.take(i as int)),
            seen == has_value(values@.take(i as int)),
        decreases values@.len() - i,
    {
        let ghost pre = values@.take(i as int);
        assert(values@.take(i as int + 1).drop_last() =~= pre);
        match values[i] {
            Some(v) => {
                acc = acc | v;
                seen = true;
                assert(values@.take(i as int + 1)[i as int] is Some);
            },
            None => {
                assert(has_value(values@.take(i as int + 1)) ==> has_value(pre)) by {
                    if has_value(values@.take(i as int + 1)) {
                        let j = choose|j: int|
                            0 <= j < i + 1 && #[trigger] values@.take(i as int + 1)[j] is Some;
                        assert(pre[j] is Some);
                    }
                }
            },
        }
        proof {
            if has_value(pre) {
                let j = choose|j: int| 0 <= j < i && #[trigger] pre[j] is Some;
                assert(values@.take(i as int + 1)[j] is Some);
            }
        }
        i += 1;
    }
    assert(values@.take(values@.len() as int) =~= values@);
    if seen {
        Some(acc)
    } else {
        None
    }
}

/// Bits for an array of an unsigned type: `max(1, W - leading_zeros(or))` over the
/// non-null values, which for values within `W` bits is `max(1, 64 - leading_zeros(or))`
/// of their 64-bit patterns. `None` when every value is null.
pub fn bitpack_params_for_type(arr: &IntegerArray) -> (r: Option<BitpackParams>)
    ensures
        r == unsigned_params(arr.values@),
{
    match bit_or(&arr.values) {
        Some(max) => {
            let lz = max.leading_zeros();
            let num_bits: u64 = 64 - lz as u64;
            let num_bits = if num_bits < 1 {
                1
            } else {
                num_bits
            };
            Some(BitpackParams { num_bits, signed: false })
        },
        None => None,
    }
}

/// Bits for an array of a signed type: the most bits any non-null value needs below its
/// sign (the type's width less its leading zeros, or leading ones when negative), one more
/// for the sign when some value is negative, and at least one. `None` when every value is
/// null.
pub fn bitpack_params_for_signed_type(arr: &IntegerArray) -> (r: Option<BitpackParams>)
    requires
        arr.data_type.spec_is_signed_int(),
    ensures
        r == signed_params(arr.values@, arr.data_type.spec_int_width()->0),
{
    let w: u64 = match arr.data_type.int_width() {
        Some(w) => w,
        None => 64,
    };
    let mask: u64 = u64::MAX >> (64 - w);
    let values = &arr.values;
    let mut max_bits: u64 = 0;
    let mut add_signed_bit = false;
    let mut seen = false;
    let mut i: usize = 0;
    while i < values.len()
        invariant
            w == arr.data_type.spec_int_width()->0,
            8 <= w <= 64,
            mask == low_mask(w),
            *values == arr.values,
            i <= values@.len(),
            max_bits == max_magnitude_bits(values@.take(i as int), w),
            max_bits <= 64,
            add_signed_bit == any_negative(values@.take(i as int), w),
            seen == has_value(values@.take(i as int)),
        decreases values@.len() - i,
    {
        let ghost pre = values@.take(i as int);
        let ghost post = values@.take(i as int + 1);
        assert(post.drop_last() =~= pre);
        match values[i] {
            Some(v) => {
                let negative = (v >> (w - 1)) & 1u64 == 1u64;
                let x = if negative {
                    !v & mask
                } else {
                    v
                };
                let bits: u64 = 64 - x.leading_zeros() as u64;
                if bits > max_bits {
                    max_bits = bits;
                }
                if negative {
                    add_signed_bit = true;
                    assert(post[i as int] matches Some(v) && is_negative(v, w));
                }
                seen = true;
                assert(post[i as int] is Some);
            },
            None => {},
        }
        proof {
            assert forall|j: int| 0 <= j < i implies post[j] == pre[j] by {}
            if has_value(pre) {
                let j = choose|j: int| 0 <= j < i && #[trigger] pre[j] is Some;
                assert(post[j] is Some);
            }
            if has_value(post) {
                let j = choose|j: int| 0 <= j < i + 1 && #[trigger] post[j] is Some;
                if j < i {
                    assert(pre[j] is Some);
                }
            }
            if any_negative(pre, w) {
                let j = choose|j: int|
                    0 <= j < i && (#[trigger] pre[j] matches Some(v) && is_negative(v, w));
                assert(post[j] == pre[j]);
            }
            if any_negative(post, w) {
                let j = choose|j: int|
                    0 <= j < i + 1 && (#[trigger] post[j] matches Some(v) && is_negative(v, w));
                if j < i {
                    assert(pre[j] == post[j]);
                }
            }
        }
        i += 1;
    }
    assert(values@.take(values@.len() as int) =~= values@);
    if !seen {
        return None;
    }
    let mut num_bits = max_bits;
    if add_signed_bit {
        num_bits = num_bits + 1;
    }
    if num_bits < 1 {
        num_bits = 1;
    }
    Some(BitpackParams { num_bits, signed: add_signed_bit })
}

/// Bits for bit-packing an integer array; `None` for an array of another type, or whose
/// values are all null.
pub fn bitpack_params(arr: &IntegerArray) -> (r: Option<BitpackParams>)
    ensures
        arr.data_type.spec_int_width() is None ==> r is None,
        arr.data_type.spec_int_width() is Some && !arr.data_type.spec_is_signed_int() ==> r
            == unsigned_params(arr.values@),
        arr.data_type.spec_is_signed_int() ==> ({
            let w = arr.data_type.spec_int_width()->0;
            r == if has_value(arr.values@) {
                Some(
                    BitpackParams {
                        num_bits: at_least_one(
                            max_magnitude_bits(arr.values@, w) + if any_negative(arr.values@, w) {
                                1int
                            } else {
                                0int
                            },
                        ) as u64,
                        signed: any_negative(arr.values@, w),
                    },
                )
            } else {
                None::<BitpackParams>
            }
        }),
{
    match arr.data_type {
        DataType::UInt8 | DataType::UInt16 | DataType::UInt32 | DataType::UInt64 => {
            bitpack_params_for_type(arr)
        },
        DataType::Int8 | DataType::Int16 | DataType::Int32 | DataType::Int64 => {
            bitpack_params_for_signed_type(arr)
        },
        _ => None,
    }
}

/// Bitwise or of every non-null value of every array.
pub open spec fn or_arrays(arrays: Seq<IntegerArray>) -> u64
    decreases arrays.len(),
{
    if arrays.len() == 0 {
        0
    } else {
        or_arrays(arrays.drop_last()) | or_values(arrays.last().values@)
    }
}

/// The compressed bit width for packing the arrays, all of the same integer type, in
/// chunks of non-negative values: `max(1, W - leading_zeros(or))` of the bitwise or of
/// every non-null value, which for values within `W` bits is `max(1, 64 - leading_zeros)`
/// of its 64-bit pattern.
pub fn compute_compressed_bit_width_for_non_neg(arrays: &Vec<IntegerArray>) -> (r: u64)
    requires
        arrays@.len() > 0,
        arrays@[0].data_type.spec_int_width() is Some,
        forall|i: int|
            0 <= i < arrays@.len() ==> #[trigger] arrays@[i].data_type == arrays@[0].data_type,
    ensures
        r == at_least_one(significant_bits(or_arrays(arrays@))),
{
    let mut global: u64 = 0;
    let mut i: usize = 0;
    while i < arrays.len()
        invariant
            i <= arrays@.len(),
            global == or_arrays(arrays@.take(i as int)),
        decreases arrays@.len() - i,
    {
        assert(arrays@.take(i as int + 1).drop_last() =~= arrays@.take(i as int));
        let array_or = match bit_or(&arrays[i].values) {
            Some(x) => x,
            None => 0,
        };
        proof {
            if !has_value(arrays@[i as int].values@) {
                lemma_or_no_values(arrays@[i as int].values@);
            }
        }
        global = global | array_or;
        i += 1;
    }
    assert(arrays@.take(arrays@.len() as int) =~= arrays@);
    let num_bits: u64 = 64 - global.leading_zeros() as u64;
    if num_bits == 0 {
        1
    } else {
        num_bits
    }
}

/// With no non-null value the bitwise or is zero.
proof fn lemma_or_no_values(s: Seq<Option<u64>>)
    requires
        !has_value(s),
    ensures
        or_values(s) == 0,
    decreases s.len(),
{
    if s.len() > 0 {
        assert(!has_value(s.drop_last())) by {
            if has_value(s.drop_last()) {
                let j = choose|j: int| 0 <= j < s.len() - 1 && #[trigger] s.drop_last()[j] is Some;
                assert(s[j] is Some);
            }
        }
        lemma_or_no_values(s.drop_last());
        assert(s[s.len() - 1] is None);
    }
}

} // verus!

verus! {

/// A set bit of `a` or of `b` is a set bit of `a | b`, and only those are.
proof fn lemma_or_bit(a: u64, b: u64, j: u64)
    requires
        j < 64,
    ensures
        ((a | b) >> j) & 1u64 != 0u64 <==> ((a >> j) & 1u64 != 0u64 || (b >> j) & 1u64 != 0u64),
{
    assert(((a | b) >> j) & 1u64 != 0u64 <==> ((a >> j) & 1u64 != 0u64 || (b >> j) & 1u64 != 0u64))
        by (bit_vector)
        requires
            j < 64,
    ;
}

/// The bits needed for `a | b` are the more of those needed for `a` and for `b`.
pub proof fn lemma_significant_bits_or(a: u64, b: u64)
    ensures
        significant_bits(a | b) == if significant_bits(a) >= significant_bits(b) {
            significant_bits(a)
        } else {
            significant_bits(b)
        },
{
    let c = a | b;
    vstd::std_specs::bits::axiom_u64_leading_zeros(a);
    vstd::std_specs::bits::axiom_u64_leading_zeros(b);
    vstd::std_specs::bits::axiom_u64_leading_zeros(c);
    let la = u64_leading_zeros(a) as int;
    let lb = u64_leading_zeros(b) as int;
    let l = u64_leading_zeros(c) as int;
    if la < 64 {
        let j = (63 - la) as u64;
        lemma_or_bit(a, b, j);
        if l > la {
            assert((c >> j) & 1u64 == 0u64);
        }
    }
    if lb < 64 {
        let j = (63 - lb) as u64;
        lemma_or_bit(a, b, j);
        if l > lb {
            assert((c >> j) & 1u64 == 0u64);
        }
    }
    if l < 64 {
        let j = (63 - l) as u64;
        lemma_or_bit(a, b, j);
        if (a >> j) & 1u64 != 0u64 && la > l {
            assert((a >> j) & 1u64 == 0u64);
        }
        if (b >> j) & 1u64 != 0u64 && lb > l {
            assert((b >> j) & 1u64 == 0u64);
        }
    } else {
        assert(c == 0);
        assert(c == 0 ==> a == 0 && b == 0) by (bit_vector)
            requires
                c == a | b,
        ;
    }
}

/// The most magnitude bits among the values is at least those of any one value.
proof fn lemma_max_magnitude_ge(s: Seq<Option<u64>>, w: u64, i: int)
    requires
        0 <= i < s.len(),
        s[i] is Some,
    ensures
        max_magnitude_bits(s, w) >= magnitude_bits(s[i]->Some_0, w),
    decreases s.len(),
{
    if i < s.len() - 1 {
        lemma_max_magnitude_ge(s.drop_last(), w, i);
    }
}

/// Magnitude bits lie within `0..=64`.
proof fn lemma_max_magnitude_bounds(s: Seq<Option<u64>>, w: u64)
    ensures
        0 <= max_magnitude_bits(s, w) <= 64,
    decreases s.len(),
{
    if s.len() > 0 {
        lemma_max_magnitude_bounds(s.drop_last(), w);
        if let Some(v) = s.last() {
            vstd::std_specs::bits::axiom_u64_leading_zeros(v);
            vstd::std_specs::bits::axiom_u64_leading_zeros(!v & low_mask(w));
        }
    }
}

/// With no negative value, the most magnitude bits are the bits of the bitwise or.
proof fn lemma_max_magnitude_is_or(s: Seq<Option<u64>>, w: u64)
    requires
        !any_negative(s, w),
    ensures
        max_magnitude_bits(s, w) == significant_bits(or_values(s)),
    decreases s.len(),
{
    if s.len() == 0 {
        vstd::std_specs::bits::axiom_u64_leading_zeros(0);
    } else {
        let p = s.drop_last();
        assert(!any_negative(p, w)) by {
            if any_negative(p, w) {
                let j = choose|j: int| 0 <= j < p.len() && (#[trigger] p[j] matches Some(v) && is_negative(v, w));
                assert(s[j] == p[j]);
            }
        }
        lemma_max_magnitude_is_or(p, w);
        match s.last() {
            Some(v) => {
                assert(!is_negative(v, w)) by {
                    assert(s[s.len() - 1] == s.last());
                }
                lemma_significant_bits_or(or_values(p), v);
                vstd::std_specs::bits::axiom_u64_leading_zeros(v);
            },
            None => {},
        }
    }
}

/// A value other than 0 and -1 needs at least one bit below its sign.
proof fn lemma_magnitude_positive(v: u64, w: u64)
    requires
        8 <= w <= 64,
        v & !low_mask(w) == 0,
        v != 0,
        v != low_mask(w),
    ensures
        magnitude_bits(v, w) >= 1,
{
    let m = low_mask(w);
    let x = if is_negative(v, w) { !v & m } else { v };
    assert(v & !m == 0 && v != m ==> !v & m != 0) by (bit_vector);
    vstd::std_specs::bits::axiom_u64_leading_zeros(x);
}

/// The bit width that the analyzer picks for a signed array: when some value is negative
/// it keeps a sign bit, and it needs two bits or more unless every value is 0 or -1; when
/// no value is negative it keeps no sign bit and picks the width of the unsigned analysis.
pub proof fn lemma_signed_bit_width(arr: IntegerArray)
    requires
        arr.data_type.spec_is_signed_int(),
        arr.wf(),
        has_value(arr.values@),
    ensures
        ({
            let w = arr.data_type.spec_int_width()->0;
            let s = arr.values@;
            &&& any_negative(s, w) ==> signed_params(s, w)->Some_0.signed
            &&& any_negative(s, w) && (exists|i: int|
                0 <= i < s.len() && (#[trigger] s[i] matches Some(v) && v != 0 && v != low_mask(w)))
                ==> signed_params(s, w)->Some_0.num_bits >= 2
            &&& !any_negative(s, w) ==> signed_params(s, w) == unsigned_params(s)
        }),
{
    let w = arr.data_type.spec_int_width()->0;
    let s = arr.values@;
    lemma_max_magnitude_bounds(s, w);
    if any_negative(s, w) && (exists|i: int|
        0 <= i < s.len() && (#[trigger] s[i] matches Some(v) && v != 0 && v != low_mask(w))) {
        let i = choose|i: int|
            0 <= i < s.len() && (#[trigger] s[i] matches Some(v) && v != 0 && v != low_mask(w));
        let v = s[i]->Some_0;
        assert(v & !low_mask(w) == 0);
        lemma_magnitude_positive(v, w);
        lemma_max_magnitude_ge(s, w, i);
    }
    if !any_negative(s, w) {
        lemma_max_magnitude_is_or(s, w);
    }
}

} // verus!

verus! {

/// Leading zeros of `x` as a `w`-bit integer.
pub open spec fn leading_zeros_in(x: u64, w: u64) -> int {
    if w == 8 {
        vstd::std_specs::bits::u8_leading_zeros(x as u8) as int
    } else if w == 16 {
        vstd::std_specs::bits::u16_leading_zeros(x as u16) as int
    } else if w == 32 {
        vstd::std_specs::bits::u32_leading_zeros(x as u32) as int
    } else {
        u64_leading_zeros(x) as int
    }
}

/// For a value within 8 bits, its leading zeros as a `u8` are 56 fewer than as a `u64`.
proof fn lemma_leading_zeros_u8(x: u64)
    requires
        x & !0xffu64 == 0,
    ensures
        vstd::std_specs::bits::u8_leading_zeros(x as u8) + 56 == u64_leading_zeros(x),
{
    let y = x as u8;
    vstd::std_specs::bits::axiom_u8_leading_zeros(y);
    vstd::std_specs::bits::axiom_u64_leading_zeros(x);
    let ls = vstd::std_specs::bits::u8_leading_zeros(y) as int;
    let l = u64_leading_zeros(x) as int;
    if y == 0 {
        assert(x & !0xffu64 == 0 && x as u8 == 0 ==> x == 0) by (bit_vector);
    } else {
        assert(x & !0xffu64 == 0 && x as u8 != 0 ==> x != 0) by (bit_vector);
        let js = (7 - ls) as u8;
        assert(x & !0xffu64 == 0 && js < 8 ==> (((x as u8) >> js) & 1u8 != 0u8 <==> (x >> (js as u64))
            & 1u64 != 0u64)) by (bit_vector);
        if l >= 57 + ls {
            assert((x >> (js as u64)) & 1u64 == 0u64);
        }
        let j = (63 - l) as u64;
        assert(x & !0xffu64 == 0 && 8 <= j < 64 ==> (x >> j) & 1u64 == 0u64) by (bit_vector);
        assert(j < 8);
        let jb = j as u8;
        assert(x & !0xffu64 == 0 && jb < 8 ==> (((x as u8) >> jb) & 1u8 != 0u8 <==> (x >> (jb as u64))
            & 1u64 != 0u64)) by (bit_vector);
        if l < 56 + ls {
            assert(((x as u8) >> jb) & 1u8 == 0u8);
        }
    }
}

/// For a value within 16 bits, its leading zeros as a `u16` are 48 fewer than as a `u64`.
proof fn lemma_leading_zeros_u16(x: u64)
    requires
        x & !0xffffu64 == 0,
    ensures
        vstd::std_specs::bits::u16_leading_zeros(x as u16) + 48 == u64_leading_zeros(x),
{
    let y = x as u16;
    vstd::std_specs::bits::axiom_u16_leading_zeros(y);
    vstd::std_specs::bits::axiom_u64_leading_zeros(x);
    let ls = vstd::std_specs::bits::u16_leading_zeros(y) as int;
    let l = u64_leading_zeros(x) as int;
    if y == 0 {
        assert(x & !0xffffu64 == 0 && x as u16 == 0 ==> x == 0) by (bit_vector);
    } else {
        assert(x & !0xffffu64 == 0 && x as u16 != 0 ==> x != 0) by (bit_vector);
        let js = (15 - ls) as u16;
        assert(x & !0xffffu64 == 0 && js < 16 ==> (((x as u16) >> js) & 1u16 != 0u16 <==> (x >> (js as u64))
            & 1u64 != 0u64)) by (bit_vector);
        if l >= 49 + ls {
            assert((x >> (js as u64)) & 1u64 == 0u64);
        }
        let j = (63 - l) as u64;
        assert(x & !0xffffu64 == 0 && 16 <= j < 64 ==> (x >> j) & 1u64 == 0u64) by (bit_vector);
        assert(j < 16);
        let jb = j as u16;
        assert(x & !0xffffu64 == 0 && jb < 16 ==> (((x as u16) >> jb) & 1u16 != 0u16 <==> (x >> (jb as u64))
            & 1u64 != 0u64)) by (bit_vector);
        if l < 48 + ls {
            assert(((x as u16) >> jb) & 1u16 == 0u16);
        }
    }
}

/// For a value within 32 bits, its leading zeros as a `u32` are 32 fewer than as a `u64`.
proof fn lemma_leading_zeros_u32(x: u64)
    requires
        x & !0xffff_ffffu64 == 0,
    ensures
        vstd::std_specs::bits::u32_leading_zeros(x as u32) + 32 == u64_leading_zeros(x),
{
    let y = x as u32;
    vstd::std_specs::bits::axiom_u32_leading_zeros(y);
    vstd::std_specs::bits::axiom_u64_leading_zeros(x);
    let ls = vstd::std_specs::bits::u32_leading_zeros(y) as int;
    let l = u64_leading_zeros(x) as int;
    if y == 0 {
        assert(x & !0xffff_ffffu64 == 0 && x as u32 == 0 ==> x == 0) by (bit_vector);
    } else {
        assert(x & !0xffff_ffffu64 == 0 && x as u32 != 0 ==> x != 0) by (bit_vector);
        let js = (31 - ls) as u32;
        assert(x & !0xffff_ffffu64 == 0 && js < 32 ==> (((x as u32) >> js) & 1u32 != 0u32 <==> (x >> (js as u64))
            & 1u64 != 0u64)) by (bit_vector);
        if l >= 33 + ls {
            assert((x >> (js as u64)) & 1u64 == 0u64);
        }
        let j = (63 - l) as u64;
        assert(x & !0xffff_ffffu64 == 0 && 32 <= j < 64 ==> (x >> j) & 1u64 == 0u64) by (bit_vector);
        assert(j < 32);
        let jb = j as u32;
        assert(x & !0xffff_ffffu64 == 0 && jb < 32 ==> (((x as u32) >> jb) & 1u32 != 0u32 <==> (x >> (jb as u64))
            & 1u64 != 0u64)) by (bit_vector);
        if l < 32 + ls {
            assert(((x as u32) >> jb) & 1u32 == 0u32);
        }
    }
}

/// The bitwise or of values within `w` bits is within `w` bits.
proof fn lemma_or_within(s: Seq<Option<u64>>, m: u64)
    requires
        forall|i: int| 0 <= i < s.len() ==> (#[trigger] s[i] matches Some(v) ==> v & !m == 0),
    ensures
        or_values(s) & !m == 0,
    decreases s.len(),
{
    if s.len() > 0 {
        lemma_or_within(s.drop_last(), m);
        let a = or_values(s.drop_last());
        assert(s[s.len() - 1] == s.last());
        if let Some(v) = s.last() {
            assert(a & !m == 0 && v & !m == 0 ==> (a | v) & !m == 0) by (bit_vector);
            assert(or_values(s) == a | v);
        } else {
            assert(or_values(s) == a);
        }
    } else {
        assert(0u64 & !m == 0) by (bit_vector);
    }
}

/// The bit width that the analyzer picks for an unsigned array of `W`-bit values is
/// `max(1, W - leading_zeros(or))`, the leading zeros counted in a `W`-bit integer.
pub proof fn lemma_unsigned_bit_width(arr: IntegerArray)
    requires
        arr.data_type.spec_int_width() is Some,
        !arr.data_type.spec_is_signed_int(),
        arr.wf(),
        has_value(arr.values@),
    ensures
        ({
            let w = arr.data_type.spec_int_width()->0;
            unsigned_params(arr.values@)->Some_0.num_bits == at_least_one(
                w - leading_zeros_in(or_values(arr.values@), w),
            )
        }),
{
    let w = arr.data_type.spec_int_width()->0;
    let s = arr.values@;
    let x = or_values(s);
    assert(low_mask(8) == 0xffu64) by (bit_vector);
    assert(low_mask(16) == 0xffffu64) by (bit_vector);
    assert(low_mask(32) == 0xffff_ffffu64) by (bit_vector);
    lemma_or_within(s, low_mask(w));
    if w == 8 {
        lemma_leading_zeros_u8(x);
    } else if w == 16 {
        lemma_leading_zeros_u16(x);
    } else if w == 32 {
        lemma_leading_zeros_u32(x);
    }
}

} // verus!
