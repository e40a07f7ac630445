use std::ops::Range;

use lance_codec::analyze::{bitpack_params, compute_compressed_bit_width_for_non_neg, IntegerArray};
use lance_codec::block::{AllNullDataBlock, DataBlock, DataType, FixedWidthDataBlock, NullableDataBlock};
use lance_codec::chunked::BitpackedForNonNegArrayEncoder;
use lance_codec::decode::{compute_start_offset, rows_in_buffer, BufferStartOffset, StartOffset};
use lance_codec::encode::BitpackedArrayEncoder;
use lance_codec::encoding::ArrayEncoding;
use lance_codec::error::Error;
use lance_codec::schedule::{BitpackedForNonNegScheduler, BitpackedScheduler};

fn le_bytes(values: &[u64], width: u64) -> Vec<u8> {
    let mut out = Vec::new();
    for v in values {
        for k in 0..(width / 8) {
            out.push((v >> (8 * k)) as u8);
        }
    }
    out
}

fn from_le_bytes(bytes: &[u8], width: u64) -> Vec<u64> {
    bytes
        .chunks(width as usize / 8)
        .map(|c| c.iter().enumerate().fold(0u64, |acc, (k, b)| acc | ((*b as u64) << (8 * k))))
        .collect()
}

fn block(values: &[u64], width: u64) -> FixedWidthDataBlock {
    FixedWidthDataBlock {
        bits_per_value: width,
        data: le_bytes(values, width),
        num_values: values.len() as u64,
    }
}

fn array(data_type: DataType, values: Vec<Option<u64>>) -> IntegerArray {
    IntegerArray { data_type, values }
}

fn signed(values: &[i64], width: u64) -> Vec<u64> {
    let mask = if width == 64 { u64::MAX } else { (1u64 << width) - 1 };
    values.iter().map(|v| (*v as u64) & mask).collect()
}

// Encodes with the bit-granular codec, fetches the planned byte ranges, and decodes.
fn bitpacked_round_trip(
    values: &[u64],
    width: u64,
    num_bits: u64,
    is_signed: bool,
    ranges: Vec<Range<u64>>,
    rows_to_skip: u64,
    num_rows: u64,
) -> Vec<u64> {
    let encoder = BitpackedArrayEncoder::new(num_bits, is_signed);
    let mut buffer_index = 0u32;
    let encoded = encoder.encode(DataBlock::FixedWidth(block(values, width)), &mut buffer_index).unwrap();
    let packed = match encoded.data {
        DataBlock::FixedWidth(f) => f,
        _ => panic!("expected a fixed-width block"),
    };
    assert_eq!(packed.data.len(), (values.len() * num_bits as usize + 7) / 8);
    let scheduler = BitpackedScheduler::new(num_bits, width, 0, is_signed);
    let schedule = scheduler.schedule_ranges(&ranges);
    let data: Vec<Vec<u8>> = schedule
        .byte_ranges
        .iter()
        .map(|r| packed.data[r.start as usize..r.end as usize].to_vec())
        .collect();
    let decoder = scheduler.make_decoder(schedule, data);
    let decoded = decoder.decode(rows_to_skip, num_rows);
    assert_eq!(decoded.num_values, num_rows);
    assert_eq!(decoded.bits_per_value, width);
    from_le_bytes(&decoded.data, width)
}

#[test]
fn test_rows_in_buffer() {
    let test_cases = vec![
        (5usize, 5u64, 0u8, None, 8u64),
        (2, 3, 0, Some(5), 4),
        (2, 3, 7, Some(6), 2),
    ];

    for (buffer_len, bits_per_value, buffer_start_bit_offset, buffer_end_bit_offset, expected) in
        test_cases
    {
        let result = rows_in_buffer(
            buffer_len,
            bits_per_value,
            buffer_start_bit_offset,
            buffer_end_bit_offset,
        );
        assert_eq!(expected, result);
    }
}

#[test]
fn test_compute_start_offset() {
    let result = compute_start_offset(0, 5, 5, 0, None);
    assert_eq!(StartOffset::SkipSome(BufferStartOffset { index: 0, bit_offset: 0 }), result);

    let result = compute_start_offset(10, 5, 5, 0, None);
    assert_eq!(StartOffset::SkipFull(8), result);
}

#[test]
fn compute_start_offset_within_a_byte() {
    // skip 3 rows of 3 bits after a 2-bit start: bit 11 is bit 3 of byte 1
    let result = compute_start_offset(3, 4, 3, 2, None);
    assert_eq!(StartOffset::SkipSome(BufferStartOffset { index: 1, bit_offset: 3 }), result);
}

#[test]
fn test_bitpack_params() {
    // arrays of 10000 values equal to 2^(num_bits - 1), some of them null
    fn check(num_bits: u64, data_type: DataType, null_every: usize) {
        let max = 1u64 << (num_bits - 1);
        let values = (0..10000)
            .map(|i| if null_every > 0 && i % null_every == 0 { None } else { Some(max) })
            .collect();
        let result = bitpack_params(&array(data_type, values));
        assert!(result.is_some());
        assert_eq!(num_bits, result.unwrap().num_bits);
    }
    for (num_bits, null_every) in [(5u64, 0usize), (5, 2), (1, 0), (1, 2), (8, 0), (8, 2)] {
        check(num_bits, DataType::UInt8, null_every);
        check(num_bits, DataType::UInt16, null_every);
        check(num_bits, DataType::UInt32, null_every);
        check(num_bits, DataType::UInt64, null_every);
    }
    for (num_bits, null_every) in [(13u64, 0usize), (13, 2), (16, 0), (16, 2)] {
        check(num_bits, DataType::UInt16, null_every);
        check(num_bits, DataType::UInt32, null_every);
        check(num_bits, DataType::UInt64, null_every);
    }
    for (num_bits, null_every) in [(25u64, 0usize), (25, 2), (32, 0), (32, 2)] {
        check(num_bits, DataType::UInt32, null_every);
        check(num_bits, DataType::UInt64, null_every);
    }
    for (num_bits, null_every) in [(48u64, 0usize), (48, 2), (64, 0), (64, 2)] {
        check(num_bits, DataType::UInt64, null_every);
    }

    // not for data types that cannot be bit-packed
    let floats = array(
        DataType::Float64,
        vec![0.1f64, 0.2, 0.3].into_iter().map(|f| Some(f.to_bits())).collect(),
    );
    assert!(bitpack_params(&floats).is_none());
}

#[test]
fn test_num_compressed_bits_signed_types() {
    let arr = array(DataType::Int32, signed(&[1, 2, -7], 32).into_iter().map(Some).collect());
    let result = bitpack_params(&arr);
    assert!(result.is_some());
    let result = result.unwrap();
    assert_eq!(4, result.num_bits);
    assert!(result.signed);

    // no sign bit when there is no negative value
    let arr = array(DataType::Int32, vec![Some(1), Some(2), Some(7)]);
    let result = bitpack_params(&arr);
    assert!(result.is_some());
    let result = result.unwrap();
    assert_eq!(3, result.num_bits);
    assert!(!result.signed);
}

#[test]
fn test_will_bitpack_allowed_types_when_possible() {
    let test_cases: Vec<(DataType, u64, Vec<u64>, u64)> = vec![
        (DataType::UInt8, 8, vec![0, 1, 2, 3, 4, 5], 3),
        (DataType::UInt16, 16, vec![0, 1, 2, 3, 4, 5 << 8], 11),
        (DataType::UInt32, 32, vec![0, 1, 2, 3, 4, 5 << 16], 19),
        (DataType::UInt64, 64, vec![0, 1, 2, 3, 4, 5 << 32], 35),
        (DataType::Int8, 8, signed(&[0, 2, 3, 4, -5], 8), 4),
        (DataType::Int8, 8, signed(&[0, 2, 3, 4, 5], 8), 3),
        (DataType::Int16, 16, signed(&[0, 1, 2, 3, -4, 5 << 8], 16), 12),
        (DataType::Int32, 32, signed(&[0, 1, 2, 3, 4, -5 << 16], 32), 20),
        (DataType::Int64, 64, signed(&[0, 1, 2, -3, -4, -5 << 32], 64), 36),
    ];

    for (data_type, width, values, bits_per_value) in test_cases {
        let mut buffer_index = 1u32;
        let arr = array(data_type, values.iter().map(|v| Some(*v)).collect());
        let params = bitpack_params(&arr).unwrap();
        let encoder = BitpackedArrayEncoder::new(params.num_bits, params.signed);
        let result = encoder
            .encode(DataBlock::FixedWidth(block(&values, width)), &mut buffer_index)
            .unwrap();
        match result.data {
            DataBlock::FixedWidth(data) => assert_eq!(bits_per_value, data.bits_per_value),
            _ => panic!("expected a fixed-width block"),
        }
        match result.encoding {
            ArrayEncoding::Bitpacked(bitpacked) => {
                assert_eq!(bits_per_value, bitpacked.compressed_bits_per_value);
                assert_eq!(width, bitpacked.uncompressed_bits_per_value);
                assert_eq!(1, bitpacked.buffer_index);
            }
            _ => panic!("Array did not use bitpacking encoding"),
        }
        assert_eq!(2, buffer_index);
    }

    // values that need the full width get the full width
    let test_cases: Vec<(DataType, u64, Vec<u64>)> = vec![
        (DataType::UInt8, 8, vec![0, 1, 2, 3, 4, 250]),
        (DataType::UInt16, 16, vec![0, 1, 2, 3, 4, 250 << 8]),
        (DataType::UInt32, 32, vec![0, 1, 2, 3, 4, 250 << 24]),
        (DataType::UInt64, 64, vec![0, 1, 2, 3, 4, 250 << 56]),
        (DataType::Int8, 8, signed(&[-100], 8)),
        (DataType::Int16, 16, signed(&[-100 << 8], 16)),
        (DataType::Int32, 32, signed(&[-100 << 24], 32)),
        (DataType::Int64, 64, signed(&[-100 << 56], 64)),
    ];
    for (data_type, width, values) in test_cases {
        let arr = array(data_type, values.into_iter().map(Some).collect());
        if let Some(params) = bitpack_params(&arr) {
            assert_eq!(params.num_bits, width);
        }
    }
}

#[test]
fn bitpack_params_all_null_or_empty() {
    assert!(bitpack_params(&array(DataType::UInt32, vec![None, None])).is_none());
    assert!(bitpack_params(&array(DataType::Int32, vec![])).is_none());
    // all zeros still take one bit
    let p = bitpack_params(&array(DataType::UInt16, vec![Some(0), None, Some(0)])).unwrap();
    assert_eq!(1, p.num_bits);
    let p = bitpack_params(&array(DataType::Int16, vec![Some(0)])).unwrap();
    assert_eq!((1, false), (p.num_bits, p.signed));
    // minus one alone needs just the sign bit
    let p = bitpack_params(&array(DataType::Int8, signed(&[-1], 8).into_iter().map(Some).collect())).unwrap();
    assert_eq!((1, true), (p.num_bits, p.signed));
}

#[test]
fn compressed_bit_width_over_several_arrays() {
    let arrays = vec![
        array(DataType::UInt32, vec![Some(3), None, Some(4)]),
        array(DataType::UInt32, vec![Some(100)]),
        array(DataType::UInt32, vec![None]),
    ];
    assert_eq!(7, compute_compressed_bit_width_for_non_neg(&arrays));
    let zeros = vec![array(DataType::UInt8, vec![Some(0)])];
    assert_eq!(1, compute_compressed_bit_width_for_non_neg(&zeros));
    let negative = vec![array(DataType::Int16, signed(&[-3], 16).into_iter().map(Some).collect())];
    assert_eq!(16, compute_compressed_bit_width_for_non_neg(&negative));
}

#[test]
fn signed_round_trip() {
    let values = signed(&[1, 2, -7], 32);
    let arr = array(DataType::Int32, values.iter().map(|v| Some(*v)).collect());
    let params = bitpack_params(&arr).unwrap();
    assert_eq!((4, true), (params.num_bits, params.signed));
    let decoded = bitpacked_round_trip(&values, 32, 4, true, vec![0..3], 0, 3);
    assert_eq!(values, decoded);
    assert_eq!(-7i32, decoded[2] as u32 as i32);
}

#[test]
fn sign_extension_fills_the_high_bytes() {
    // -3 in 3 bits is 0b101; read back as i16 it is 0xFFFD
    let values = signed(&[-3, 2, -1, 0], 16);
    let decoded = bitpacked_round_trip(&values, 16, 3, true, vec![0..4], 0, 4);
    assert_eq!(vec![0xFFFD, 2, 0xFFFF, 0], decoded);
    // the same bits read as unsigned are not extended
    let unsigned = vec![5u64, 2, 7, 0];
    let decoded = bitpacked_round_trip(&unsigned, 16, 3, false, vec![0..4], 0, 4);
    assert_eq!(unsigned, decoded);
}

#[test]
fn bitpacked_round_trip_bit_widths() {
    for width in [8u64, 16, 32, 64] {
        let mask = if width == 64 { u64::MAX } else { (1u64 << width) - 1 };
        for b in [1u64, width - 1, width] {
            let bmask = if b == 64 { u64::MAX } else { (1u64 << b) - 1 };
            let values: Vec<u64> =
                (0..37u64).map(|i| (i.wrapping_mul(0x9E37_79B9_7F4A_7C15) & bmask) & mask).collect();
            let decoded = bitpacked_round_trip(&values, width, b, false, vec![0..37], 0, 37);
            assert_eq!(values, decoded, "width {} bits {}", width, b);
        }
    }
}

#[test]
fn bitpacked_skip_and_ranges() {
    let values: Vec<u64> = (0..50u64).map(|i| (i * 7) % 32).collect();
    // skip nothing and skip all but the last row
    let decoded = bitpacked_round_trip(&values, 32, 5, false, vec![0..50], 0, 50);
    assert_eq!(values, decoded);
    let decoded = bitpacked_round_trip(&values, 32, 5, false, vec![0..50], 49, 1);
    assert_eq!(vec![values[49]], decoded);
    // several ranges, not byte aligned, read in order
    let decoded = bitpacked_round_trip(&values, 32, 5, false, vec![3..7, 20..21, 45..50], 0, 10);
    let expected: Vec<u64> = (3..7).chain(20..21).chain(45..50).map(|i| values[i]).collect();
    assert_eq!(expected, decoded);
    let decoded = bitpacked_round_trip(&values, 32, 5, false, vec![3..7, 20..21, 45..50], 4, 3);
    assert_eq!(expected[4..7].to_vec(), decoded);
    // no rows at all
    let decoded = bitpacked_round_trip(&values, 32, 5, false, vec![0..50], 0, 0);
    assert!(decoded.is_empty());
}

#[test]
fn bitpacked_schedule_offsets() {
    let scheduler = BitpackedScheduler::new(5, 32, 100, false);
    let schedule = scheduler.schedule_ranges(&vec![3..7, 8..16]);
    // rows 3..7 are bits 15..35: bytes 1..5, starting at bit 7, ending at bit 3
    assert_eq!(vec![101..105, 105..110], schedule.byte_ranges);
    assert_eq!(vec![7, 0], schedule.buffer_bit_start_offsets);
    assert_eq!(vec![Some(3), None], schedule.buffer_bit_end_offsets);
}

#[test]
fn bitpacked_encoder_errors() {
    let mut index = 4u32;
    let encoder = BitpackedArrayEncoder::new(3, false);
    let r = encoder.encode(DataBlock::AllNull(AllNullDataBlock { num_values: 3 }), &mut index);
    assert!(matches!(r, Err(Error::UnsupportedBlockShape)));
    let r = encoder.encode(DataBlock::FixedWidth(block(&[1, 2], 24)), &mut index);
    assert!(matches!(r, Err(Error::UnsupportedType)));
    let r = BitpackedArrayEncoder::new(9, false).encode(DataBlock::FixedWidth(block(&[1, 2], 8)), &mut index);
    assert!(matches!(r, Err(Error::InvalidBitWidth)));
    let bad = FixedWidthDataBlock { bits_per_value: 16, data: vec![1, 2, 3], num_values: 2 };
    let r = encoder.encode(DataBlock::FixedWidth(bad), &mut index);
    assert!(matches!(r, Err(Error::BlockLengthMismatch)));
    assert_eq!(4, index);
}

// Encodes in chunks, plans the reads of `ranges`, fetches and decodes them.
fn chunked_round_trip(values: &[u64], width: u64, b: u64, ranges: Vec<Range<u64>>) -> (usize, Vec<u64>) {
    let data_type = match width {
        8 => DataType::UInt8,
        16 => DataType::UInt16,
        32 => DataType::UInt32,
        _ => DataType::UInt64,
    };
    let encoder = BitpackedForNonNegArrayEncoder::new(b as usize, data_type);
    let mut buffer_index = 0u32;
    let encoded = encoder
        .encode(DataBlock::FixedWidth(block(values, width)), &data_type, &mut buffer_index)
        .unwrap();
    assert_eq!(1, buffer_index);
    let packed = match encoded.data {
        DataBlock::FixedWidth(f) => f,
        _ => panic!("expected a fixed-width block"),
    };
    let scheduler = BitpackedForNonNegScheduler::new(b, width, 0);
    let num_rows: u64 = ranges.iter().map(|r| r.end - r.start).sum();
    if num_rows == 0 {
        return (packed.data.len(), vec![]);
    }
    let schedule = scheduler.schedule_ranges(&ranges);
    let data: Vec<Vec<u8>> = schedule
        .byte_ranges
        .iter()
        .map(|r| packed.data[r.start as usize..r.end as usize].to_vec())
        .collect();
    let decoder = scheduler.make_decoder(schedule, data, num_rows);
    let out = decoder.decode(0, num_rows).unwrap();
    (packed.data.len(), from_le_bytes(&out.data, width))
}

#[test]
fn chunked_encode_decode() {
    let values: Vec<u64> = (0..2048).collect();
    let (size, decoded) = chunked_round_trip(&values, 32, 11, vec![0..2048]);
    assert_eq!(2816, size);
    assert_eq!(values, decoded);
}

#[test]
fn chunked_value_counts() {
    for n in [0u64, 1, 1023, 1024, 1025] {
        let values: Vec<u64> = (0..n).map(|i| i % 200).collect();
        let chunks = ((n + 1023) / 1024) as usize;
        let ranges = if n == 0 { vec![] } else { vec![0..n] };
        let (size, decoded) = chunked_round_trip(&values, 16, 8, ranges);
        assert_eq!(chunks * 1024, size);
        assert_eq!(values, decoded);
    }
}

#[test]
fn chunked_partial_ranges() {
    let values: Vec<u64> = (0..3000u64).map(|i| (i * 31) % 1000).collect();
    let ranges = vec![5..10, 10..1030, 2000..2001, 2500..3000];
    let (_, decoded) = chunked_round_trip(&values, 64, 10, ranges.clone());
    let expected: Vec<u64> = ranges.iter().flat_map(|r| r.clone()).map(|i| values[i as usize]).collect();
    assert_eq!(expected, decoded);
}

#[test]
fn chunked_nullable_and_all_null() {
    let data_type = DataType::UInt32;
    let encoder = BitpackedForNonNegArrayEncoder::new(4, data_type);
    let mut index = 2u32;
    let nullable = DataBlock::Nullable(NullableDataBlock {
        data: Box::new(DataBlock::FixedWidth(block(&[1, 2, 3], 32))),
        nulls: vec![0b101],
    });
    let encoded = encoder.encode(nullable, &data_type, &mut index).unwrap();
    assert_eq!(4, index);
    match encoded.encoding {
        ArrayEncoding::SomeNull(validity, values) => {
            assert_eq!((1, 2), (validity.bits_per_value, validity.buffer_index));
            match *values {
                ArrayEncoding::BitpackedForNonNeg(e) => {
                    assert_eq!((4, 32, 3), (e.compressed_bits_per_value, e.uncompressed_bits_per_value, e.buffer_index))
                }
                _ => panic!("expected chunked values"),
            }
        }
        _ => panic!("expected a nullable encoding"),
    }
    let all_null = DataBlock::AllNull(AllNullDataBlock { num_values: 7 });
    let encoded = encoder.encode(all_null, &data_type, &mut index).unwrap();
    assert!(matches!(encoded.encoding, ArrayEncoding::AllNull));
    assert_eq!(4, index);
    let r = encoder.encode(DataBlock::VariableWidth(vec![1]), &data_type, &mut index);
    assert!(matches!(r, Err(Error::UnsupportedBlockShape)));
    let r = encoder.encode(DataBlock::FixedWidth(block(&[1], 32)), &DataType::Float32, &mut index);
    assert!(matches!(r, Err(Error::UnsupportedType)));
}

#[test]
fn range_planner_coalescing() {
    let scheduler = BitpackedForNonNegScheduler::new(8, 32, 0);
    let schedule = scheduler.schedule_ranges(&vec![0..100, 100..1100, 1100..1200]);
    assert_eq!(vec![0..2048], schedule.byte_ranges);
    assert_eq!(vec![vec![0..100, 100..1100, 1100..1200]], schedule.bytes_idx_to_range_indices);
}

#[test]
fn range_planner_separate_chunks() {
    let scheduler = BitpackedForNonNegScheduler::new(8, 32, 10);
    let schedule = scheduler.schedule_ranges(&vec![0..100, 2048..2049, 2049..2050, 5000..5001]);
    assert_eq!(vec![10..1034, 2058..3082, 4106..5130], schedule.byte_ranges);
    assert_eq!(3, schedule.bytes_idx_to_range_indices.len());
    assert_eq!(vec![2048..2049, 2049..2050], schedule.bytes_idx_to_range_indices[1]);
    // a single range touches only its own chunks
    let schedule = scheduler.schedule_ranges(&vec![1000..1030]);
    assert_eq!(vec![10..2058], schedule.byte_ranges);
    assert_eq!(1034, scheduler.locate_chunk_start(1024));
    assert_eq!(2058, scheduler.locate_chunk_end(1024));
}

#[test]
fn signed_without_negatives_matches_unsigned() {
    for values in [vec![1u64, 2, 7], vec![0, 0], vec![5 << 20, 3], vec![255]] {
        let as_signed = bitpack_params(&array(DataType::Int64, values.iter().map(|v| Some(*v)).collect())).unwrap();
        let as_unsigned = bitpack_params(&array(DataType::UInt64, values.iter().map(|v| Some(*v)).collect())).unwrap();
        assert_eq!(as_unsigned, as_signed);
        assert!(!as_signed.signed);
    }
    // with a negative value other than -1 there are at least two bits
    let p = bitpack_params(&array(DataType::Int8, signed(&[0, -1, -2], 8).into_iter().map(Some).collect())).unwrap();
    assert_eq!((2, true), (p.num_bits, p.signed));
}
