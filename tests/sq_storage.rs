use std::ops::Range;

use lance_codec::error::Error;
use lance_codec::pq::PQIndex;
use lance_codec::sq::{
    dot_distance, l2_distance_uint_scalar, CodeBatch, CodeColumn, DistanceType, SQDistCalculator,
    ScalarQuantizationStorage,
};

const DIM: usize = 64;

fn create_record_batch(row_ids: Range<u64>) -> CodeBatch {
    let n = (row_ids.end - row_ids.start) as usize;
    let codes: Vec<u8> = (0..n * DIM).map(|i| (i * 37 % 251) as u8).collect();
    CodeBatch {
        row_ids: Some(row_ids.collect()),
        sq_codes: Some(CodeColumn { dim: DIM as u32, values: Some(codes) }),
    }
}

fn batch_with_codes(row_ids: Vec<u64>, dim: u32, codes: Vec<u8>) -> CodeBatch {
    CodeBatch { row_ids: Some(row_ids), sq_codes: Some(CodeColumn { dim, values: Some(codes) }) }
}

#[test]
fn test_get_chunks() {
    let storage = ScalarQuantizationStorage::try_new(
        8,
        DistanceType::L2,
        (0..4).map(|start| create_record_batch(start * 100..(start + 1) * 100)).collect(),
    )
    .unwrap();

    assert_eq!(storage.len(), 400);

    let (offset, chunk) = storage.chunk(0);
    assert_eq!(offset, 0);
    assert_eq!(chunk.row_id(20), 20);

    let (offset, _) = storage.chunk(50);
    assert_eq!(offset, 0);

    let second_batch = create_record_batch(100..250);
    let storage = storage.append_batch(second_batch).unwrap();

    assert_eq!(storage.len(), 550);
    let (offset, chunk) = storage.chunk(112);
    assert_eq!(offset, 100);
    assert_eq!(chunk.row_id(10), 110);

    let (offset, chunk) = storage.chunk(432);
    assert_eq!(offset, 400);
    assert_eq!(chunk.row_id(5), 105);
}

#[test]
fn chunk_addressing() {
    let storage = ScalarQuantizationStorage::try_new(
        8,
        DistanceType::L2,
        (0..4).map(|start| create_record_batch(start * 100..(start + 1) * 100)).collect(),
    )
    .unwrap();
    assert_eq!(400, storage.len());
    assert_eq!(0, storage.row_id(0));
    assert_eq!(100, storage.row_id(100));
    assert_eq!(250, storage.row_id(250));
    assert_eq!(399, storage.row_id(399));
    assert_eq!((0..400).collect::<Vec<u64>>(), storage.row_ids());
    assert_eq!(4, storage.chunks.len());
}

#[test]
fn empty_chunks_are_skipped() {
    let storage = ScalarQuantizationStorage::try_new(
        8,
        DistanceType::Dot,
        vec![
            batch_with_codes(vec![7], 2, vec![1, 2]),
            batch_with_codes(vec![], 2, vec![]),
            batch_with_codes(vec![9, 11], 2, vec![3, 4, 5, 6]),
        ],
    )
    .unwrap();
    assert_eq!(vec![0, 1, 1, 3], storage.offsets);
    assert_eq!(7, storage.row_id(0));
    assert_eq!(9, storage.row_id(1));
    assert_eq!(11, storage.row_id(2));
    let (offset, chunk) = storage.chunk(1);
    assert_eq!((1, 2), (offset, chunk.len()));
    assert_eq!(&[3, 4], chunk.sq_code_slice(0));
}

#[test]
fn storage_errors() {
    let missing_ids = CodeBatch { row_ids: None, sq_codes: Some(CodeColumn { dim: 1, values: Some(vec![1]) }) };
    assert!(matches!(ScalarQuantizationStorage::try_new(8, DistanceType::L2, vec![missing_ids]), Err(Error::MissingColumn)));
    let missing_codes = CodeBatch { row_ids: Some(vec![1]), sq_codes: None };
    assert!(matches!(ScalarQuantizationStorage::try_new(8, DistanceType::L2, vec![missing_codes]), Err(Error::MissingColumn)));
    let not_bytes = CodeBatch { row_ids: Some(vec![1]), sq_codes: Some(CodeColumn { dim: 1, values: None }) };
    assert!(matches!(ScalarQuantizationStorage::try_new(8, DistanceType::L2, vec![not_bytes]), Err(Error::MissingColumn)));
    let short = batch_with_codes(vec![1, 2], 3, vec![0; 5]);
    assert!(matches!(ScalarQuantizationStorage::try_new(8, DistanceType::L2, vec![short]), Err(Error::ColumnLengthMismatch)));
    let dims = vec![batch_with_codes(vec![1], 2, vec![0; 2]), batch_with_codes(vec![2], 3, vec![0; 3])];
    assert!(matches!(ScalarQuantizationStorage::try_new(8, DistanceType::L2, dims), Err(Error::DimensionMismatch)));
    let storage = ScalarQuantizationStorage::try_new(8, DistanceType::L2, vec![batch_with_codes(vec![1], 2, vec![0; 2])]).unwrap();
    assert!(matches!(storage.append_batch(batch_with_codes(vec![2], 4, vec![0; 4])), Err(Error::DimensionMismatch)));
}

#[test]
fn append_batch_consolidates_past_capacity() {
    let storage = ScalarQuantizationStorage::try_new(
        8,
        DistanceType::L2,
        (0..10).map(|start| create_record_batch(start * 100..(start + 1) * 100)).collect(),
    )
    .unwrap();
    assert_eq!(10, storage.chunks.len());
    // 1000 rows: appending 24 more stays at the threshold, in separate chunks
    let at_capacity = storage.append_batch(create_record_batch(1000..1024)).unwrap();
    assert_eq!(1024, at_capacity.len());
    assert_eq!(11, at_capacity.chunks.len());
    // one more row crosses it: everything is merged into one chunk
    let merged = at_capacity.append_batch(create_record_batch(1024..1025)).unwrap();
    assert_eq!(1025, merged.len());
    assert_eq!(1, merged.chunks.len());
    assert_eq!(vec![0, 1025], merged.offsets);
    for id in [0u32, 99, 100, 555, 1023, 1024] {
        assert_eq!(id as u64, merged.row_id(id));
    }
    let before = at_capacity.dist_calculator_from_id(555);
    let after = merged.dist_calculator_from_id(555);
    assert_eq!(before.query_sq_code, after.query_sq_code);
}

#[test]
fn sq_distance_of_equal_codes() {
    // the vector [0.5, 1.5, 2.5, 3.5] quantized over [0, 4)
    let codes = vec![32u8, 96, 159, 223];
    let storage =
        ScalarQuantizationStorage::try_new(8, DistanceType::L2, vec![batch_with_codes(vec![42], 4, codes.clone())])
            .unwrap();
    let calc = SQDistCalculator::new(codes.clone(), &storage);
    assert_eq!(0, calc.distance(0));
    assert_eq!(vec![0], calc.distance_all());
    let other = SQDistCalculator::new(vec![30, 100, 159, 220], &storage);
    assert_eq!(4 + 16 + 0 + 9, other.distance(0));
}

#[test]
fn distances_by_metric() {
    assert_eq!(11, dot_distance(&[1, 2], &[3, 4]));
    assert_eq!(8, l2_distance_uint_scalar(&[1, 2], &[3, 4]));
    assert_eq!(255 * 255 * 3, l2_distance_uint_scalar(&[0, 255, 0], &[255, 0, 255]));
    let storage = ScalarQuantizationStorage::try_new(
        8,
        DistanceType::Dot,
        vec![batch_with_codes(vec![5, 6], 2, vec![1, 2, 3, 4]), batch_with_codes(vec![7], 2, vec![10, 0])],
    )
    .unwrap();
    let calc = SQDistCalculator::new(vec![2, 1], &storage);
    assert_eq!(vec![4, 10, 20], calc.distance_all());
    assert_eq!(10, calc.distance(1));
    let from_row = storage.dist_calculator_from_id(2);
    assert_eq!(vec![10, 0], from_row.query_sq_code);
    assert_eq!(vec![10, 30, 100], from_row.distance_all());
}

#[test]
fn test_filter_on_empty_pq_code() {
    let keep: Vec<u64> = vec![];
    let (code, row_ids) = PQIndex::filter_arrays(Vec::<u8>::new(), Vec::<u64>::new(), &keep);
    assert!(code.is_empty());
    assert!(row_ids.is_empty());
}

#[test]
fn filter_keeps_rows_in_order() {
    // 2 sub-vectors over 4 rows, transposed
    let code = vec![10u8, 11, 12, 13, 20, 21, 22, 23];
    let row_ids = vec![100u64, 101, 102, 103];
    let (code, row_ids) = PQIndex::filter_arrays(code, row_ids, &vec![3, 1]);
    assert_eq!(vec![103, 101], row_ids);
    assert_eq!(vec![13, 11, 23, 21], code);
    assert_eq!(vec![13, 23], PQIndex::get_pq_codes(&vec![10u8, 11, 12, 13, 20, 21, 22, 23], 3, 4));
}

#[test]
fn pq_index_before_loading() {
    let index = PQIndex::new(16, DistanceType::L2);
    assert_eq!(0, index.num_rows());
    assert!(matches!(index.loaded(), Err(Error::UninitializedIndex)));
}

#[test]
fn remap_renames_and_drops_rows() {
    let mut index = PQIndex::new(2, DistanceType::L2);
    index.row_ids = Some(vec![10, 11, 12]);
    index.code = Some(vec![1, 2, 3, 4, 5, 6]);
    let mut mapping = std::collections::HashMap::new();
    mapping.insert(11u64, None);
    mapping.insert(12u64, Some(20u64));
    index.remap(&mapping);
    assert_eq!(Some(vec![10, 20]), index.row_ids);
    assert_eq!(Some(vec![1, 3, 4, 6]), index.code);
    assert_eq!(2, index.num_rows());
}
