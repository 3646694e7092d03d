//! Dense-array gather and scatter over bounding boxes, and the
//! dataset facade.

use n5store::attrs::DatasetAttributes;
use n5store::codec::Compression;
use n5store::dataset::create_dataset;
use n5store::dataset::Dataset;
use n5store::datatype::DataType;
use n5store::errors::N5Error;
use n5store::ndarray::block_origin;
use n5store::ndarray::overlapping_blocks;
use n5store::ndarray::to_grid_coordinate;
use n5store::store::N5Store;

fn attrs(dimensions: Vec<i64>, block_size: Vec<i32>, dt: DataType) -> DatasetAttributes {
    DatasetAttributes::new(dimensions, block_size, dt, Compression::gzip_default()).unwrap()
}

#[test]
fn round_trip_aligned_box_u8() {
    let mut s = N5Store::empty();
    let a = attrs(vec![8, 8], vec![4, 4], DataType::UINT8);
    s.create_dataset("d", &a).unwrap();
    let data: Vec<u8> = (0u8..16).collect();
    s.write_ndarray("d", &a, &vec![4, 4], &vec![4, 4], &data, &vec![0]).unwrap();
    let back = s.read_ndarray("d", &a, &vec![4, 4], &vec![4, 4], &vec![0]).unwrap();
    assert_eq!(back, data);
}

#[test]
fn round_trip_misaligned_box_u8() {
    let mut s = N5Store::empty();
    let a = attrs(vec![10, 10], vec![4, 4], DataType::UINT8);
    s.create_dataset("d", &a).unwrap();
    let data: Vec<u8> = (0u8..15).collect();
    s.write_ndarray("d", &a, &vec![1, 2], &vec![3, 5], &data, &vec![255]).unwrap();
    let back = s.read_ndarray("d", &a, &vec![1, 2], &vec![3, 5], &vec![255]).unwrap();
    assert_eq!(back, data);
}

#[test]
fn round_trip_u16_values_above_one_byte() {
    let mut s = N5Store::empty();
    let a = attrs(vec![6, 6], vec![4, 4], DataType::UINT16);
    s.create_dataset("d", &a).unwrap();
    let values: Vec<u16> = (0..12).map(|i| 1000 + 257 * i as u16).collect();
    let data: Vec<u8> = values.iter().flat_map(|v| v.to_le_bytes()).collect();
    s.write_ndarray("d", &a, &vec![1, 1], &vec![3, 4], &data, &0u16.to_le_bytes().to_vec())
        .unwrap();
    let back = s
        .read_ndarray("d", &a, &vec![1, 1], &vec![3, 4], &0u16.to_le_bytes().to_vec())
        .unwrap();
    assert_eq!(back, data);
}

#[test]
fn round_trip_f64_elements() {
    let mut s = N5Store::empty();
    let a = attrs(vec![9], vec![4], DataType::FLOAT64);
    s.create_dataset("d", &a).unwrap();
    let values = [1.5f64, -2.25, 3.125, 1e300, -0.0];
    let data: Vec<u8> = values.iter().flat_map(|v| v.to_le_bytes()).collect();
    let fill = 0.0f64.to_le_bytes().to_vec();
    s.write_ndarray("d", &a, &vec![3], &vec![5], &data, &fill).unwrap();
    let back = s.read_ndarray("d", &a, &vec![3], &vec![5], &fill).unwrap();
    assert_eq!(back, data);
    let decoded: Vec<f64> = back
        .chunks(8)
        .map(|c| f64::from_le_bytes(c.try_into().unwrap()))
        .collect();
    assert_eq!(decoded, values);
}

#[test]
fn absent_blocks_read_as_fill() {
    let mut s = N5Store::empty();
    let a = attrs(vec![10, 10], vec![4, 4], DataType::UINT8);
    s.create_dataset("d", &a).unwrap();
    let back = s.read_ndarray("d", &a, &vec![3, 3], &vec![4, 4], &vec![42]).unwrap();
    assert_eq!(back, vec![42u8; 16]);
}

#[test]
fn fill_applies_exactly_to_absent_region() {
    let mut s = N5Store::empty();
    let a = attrs(vec![8, 8], vec![4, 4], DataType::UINT8);
    s.create_dataset("d", &a).unwrap();
    // block (0,0) written full of 9s; block (0,1) never written
    s.write_block("d", &a, &vec![0, 0], &vec![9u8; 16]).unwrap();
    let back = s.read_ndarray("d", &a, &vec![0, 2], &vec![2, 4], &vec![5]).unwrap();
    // columns 2..4 come from block (0,0), columns 4..6 from the absent one
    let expected = vec![
        9, 9, 5, 5, //
        9, 9, 5, 5, //
    ];
    assert_eq!(back, expected);
}

#[test]
fn partial_write_preserves_block_boundary() {
    let mut s = N5Store::empty();
    let a = attrs(vec![8, 8], vec![4, 4], DataType::UINT8);
    s.create_dataset("d", &a).unwrap();
    s.write_block("d", &a, &vec![0, 0], &vec![7u8; 16]).unwrap();
    let before = s.read_ndarray("d", &a, &vec![0, 0], &vec![4, 4], &vec![0]).unwrap();
    // overwrite only the top-left 2x2 corner of that block
    s.write_ndarray("d", &a, &vec![0, 0], &vec![2, 2], &vec![1, 2, 3, 4], &vec![0]).unwrap();
    let after = s.read_ndarray("d", &a, &vec![0, 0], &vec![4, 4], &vec![0]).unwrap();
    for row in 0..4usize {
        for col in 0..4usize {
            let idx = row * 4 + col;
            if row < 2 && col < 2 {
                assert_eq!(after[idx], [1, 2, 3, 4][row * 2 + col]);
            } else {
                assert_eq!(after[idx], before[idx], "untouched element changed");
            }
        }
    }
}

#[test]
fn partial_write_over_absent_block_uses_fill() {
    let mut s = N5Store::empty();
    let a = attrs(vec![8], vec![4], DataType::UINT8);
    s.create_dataset("d", &a).unwrap();
    s.write_ndarray("d", &a, &vec![1], &vec![2], &vec![6, 6], &vec![3]).unwrap();
    let back = s.read_ndarray("d", &a, &vec![0], &vec![4], &vec![0]).unwrap();
    // the block was composed from fill 3, overlaid with 6s at 1..3
    assert_eq!(back, vec![3, 6, 6, 3]);
}

#[test]
fn scatter_spans_many_blocks() {
    let mut s = N5Store::empty();
    let a = attrs(vec![12, 12], vec![4, 4], DataType::UINT8);
    s.create_dataset("d", &a).unwrap();
    let data: Vec<u8> = (0..100).map(|i| (i % 251) as u8).collect();
    s.write_ndarray("d", &a, &vec![1, 1], &vec![10, 10], &data, &vec![0]).unwrap();
    let back = s.read_ndarray("d", &a, &vec![1, 1], &vec![10, 10], &vec![0]).unwrap();
    assert_eq!(back, data);
    // a sub-box of the written region reads the matching sub-array
    let sub = s.read_ndarray("d", &a, &vec![2, 3], &vec![2, 2], &vec![0]).unwrap();
    assert_eq!(sub, vec![data[12], data[13], data[22], data[23]]);
}

#[test]
fn empty_box_reads_and_writes_nothing() {
    let mut s = N5Store::empty();
    let a = attrs(vec![8, 8], vec![4, 4], DataType::UINT8);
    s.create_dataset("d", &a).unwrap();
    let back = s.read_ndarray("d", &a, &vec![2, 2], &vec![0, 3], &vec![1]).unwrap();
    assert_eq!(back, Vec::<u8>::new());
    s.write_ndarray("d", &a, &vec![2, 2], &vec![0, 3], &vec![], &vec![1]).unwrap();
    assert!(s.get_block_payload("d", &vec![0, 0]).unwrap().is_none());
}

#[test]
fn corrupt_block_aborts_gather() {
    let mut s = N5Store::empty();
    let a = attrs(vec![8], vec![4], DataType::UINT8);
    s.create_dataset("d", &a).unwrap();
    s.insert_block_payload("d", &vec![1], vec![1, 2, 3]).unwrap();
    let r = s.read_ndarray("d", &a, &vec![2, ], &vec![4], &vec![0]);
    assert_eq!(r.unwrap_err(), N5Error::CorruptBlock);
}

#[test]
fn out_of_extent_block_position_is_stored_as_given() {
    // the store takes a caller-supplied grid position without holding
    // it against the grid extent; a box reaching that far sees it
    let mut s = N5Store::empty();
    let a = attrs(vec![10, 10], vec![4, 4], DataType::UINT8);
    s.create_dataset("d", &a).unwrap();
    s.write_block("d", &a, &vec![5, 5], &vec![8u8; 16]).unwrap();
    let back = s.read_ndarray("d", &a, &vec![20, 20], &vec![2, 2], &vec![0]).unwrap();
    assert_eq!(back, vec![8u8; 4]);
    // the array's own extent is untouched
    let inside = s.read_ndarray("d", &a, &vec![0, 0], &vec![4, 4], &vec![0]).unwrap();
    assert_eq!(inside, vec![0u8; 16]);
}

#[test]
fn scenario_two_by_two_overlap() {
    // dataset 10x10 of UINT8 in 4x4 blocks; the full block at (0,0)
    // holds 7s; the box at (2,2) of extent 4x4 overlaps it in its
    // top-left 2x2 corner only
    let mut s = N5Store::empty();
    let a = attrs(vec![10, 10], vec![4, 4], DataType::UINT8);
    s.create_dataset("d", &a).unwrap();
    s.write_block("d", &a, &vec![0, 0], &vec![7u8; 16]).unwrap();
    let back = s.read_ndarray("d", &a, &vec![2, 2], &vec![4, 4], &vec![0]).unwrap();
    let expected = vec![
        7, 7, 0, 0, //
        7, 7, 0, 0, //
        0, 0, 0, 0, //
        0, 0, 0, 0, //
    ];
    assert_eq!(back, expected);
}

#[test]
fn scenario_create_float64_dataset() {
    let (s, r) = create_dataset(None, "vol", vec![100], vec![10], "FLOAT64", None);
    r.unwrap();
    let a = s.get_dataset_attributes("vol").unwrap();
    assert_eq!(a.dimensions, vec![100]);
    assert_eq!(a.block_size, vec![10]);
    assert_eq!(a.data_type, DataType::FLOAT64);
    let (_s, r) = create_dataset(Some(s), "vol", vec![100], vec![10], "FLOAT64", None);
    assert_eq!(r.unwrap_err(), N5Error::DatasetAlreadyExists);
}

#[test]
fn create_dataset_rejects_unknown_type() {
    let (_s, r) = create_dataset(None, "vol", vec![10], vec![5], "UINT12", None);
    assert_eq!(r.unwrap_err(), N5Error::UnsupportedDataType { name: "UINT12".to_string() });
}

#[test]
fn create_dataset_rejects_bad_shape() {
    let (_s, r) = create_dataset(None, "vol", vec![10, 10], vec![5], "UINT8", None);
    assert_eq!(r.unwrap_err(), N5Error::InvalidShape);
}

#[test]
fn facade_open_and_block_shape() {
    let (s, r) = create_dataset(None, "vol", vec![10, 10], vec![4, 2], "UINT8", None);
    r.unwrap();
    let ds = Dataset::open(Some(s), "vol", true).unwrap();
    assert_eq!(ds.block_shape(), vec![4, 2]);
    assert_eq!(ds.attributes().data_type, DataType::UINT8);
}

#[test]
fn facade_open_failures() {
    let r = Dataset::open(None, "vol", true);
    assert_eq!(r.unwrap_err(), N5Error::RootNotFound);
    let r = Dataset::open(None, "vol", false);
    assert_eq!(r.unwrap_err(), N5Error::DatasetNotFound);
    let s = N5Store::empty();
    let r = Dataset::open(Some(s), "vol", true);
    assert_eq!(r.unwrap_err(), N5Error::DatasetNotFound);
}

#[test]
fn facade_block_and_ndarray_round_trip() {
    let a = attrs(vec![8, 8], vec![4, 4], DataType::UINT8);
    let mut ds = Dataset::create(None, "vol", a).unwrap();
    let r = ds.write_block(&vec![0, 0], &vec![1u8; 15]);
    assert_eq!(r.unwrap_err(), N5Error::BlockSizeMismatch { expected: 16, actual: 15 });
    ds.write_block(&vec![0, 0], &vec![1u8; 16]).unwrap();
    assert_eq!(ds.read_block(&vec![0, 0]).unwrap().unwrap(), vec![1u8; 16]);
    assert!(ds.read_block(&vec![1, 1]).unwrap().is_none());
    let data: Vec<u8> = (0u8..9).collect();
    ds.write_ndarray(&vec![3, 3], &vec![3, 3], &data, &vec![0]).unwrap();
    let back = ds.read_ndarray(&vec![3, 3], &vec![3, 3], &vec![0]).unwrap();
    assert_eq!(back, data);
    // the facade hands its store back for persistence
    let s = ds.into_store();
    assert!(s.dataset_exists("vol"));
}

#[test]
fn facade_create_twice_fails() {
    let a = attrs(vec![8], vec![4], DataType::UINT8);
    let ds = Dataset::create(None, "vol", a).unwrap();
    let s = ds.into_store();
    let a2 = attrs(vec![8], vec![4], DataType::UINT8);
    let r = Dataset::create(Some(s), "vol", a2);
    assert_eq!(r.unwrap_err(), N5Error::DatasetAlreadyExists);
}

#[test]
fn grid_coordinate_arithmetic() {
    assert_eq!(to_grid_coordinate(&vec![5, 7], &vec![4, 4]), vec![1, 1]);
    assert_eq!(to_grid_coordinate(&vec![3, 4], &vec![4, 4]), vec![0, 1]);
    assert_eq!(to_grid_coordinate(&vec![0], &vec![3]), vec![0]);
    assert_eq!(block_origin(&vec![2, 1], &vec![4, 3]), vec![8, 3]);
    assert_eq!(block_origin(&vec![0, 0], &vec![4, 3]), vec![0, 0]);
}

#[test]
fn overlapping_blocks_row_major_order() {
    let blocks = overlapping_blocks(&vec![2, 2], &vec![4, 4], &vec![4, 4]);
    assert_eq!(blocks, vec![vec![0, 0], vec![0, 1], vec![1, 0], vec![1, 1]]);
    // repeated calls visit the same blocks in the same order
    assert_eq!(blocks, overlapping_blocks(&vec![2, 2], &vec![4, 4], &vec![4, 4]));
    // an aligned box inside one block touches only it
    assert_eq!(overlapping_blocks(&vec![4, 8], &vec![4, 4], &vec![4, 4]), vec![vec![1, 2]]);
    // an empty box touches none
    assert_eq!(
        overlapping_blocks(&vec![2, 2], &vec![0, 4], &vec![4, 4]),
        Vec::<Vec<i64>>::new()
    );
}
