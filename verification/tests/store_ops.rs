//! Attribute, block and error behaviour of the store.

use n5store::attrs::AttributeRecord;
use n5store::attrs::DatasetAttributes;
use n5store::codec::Compression;
use n5store::dataset::Dataset;
use n5store::datatype::DataType;
use n5store::errors::N5Error;
use n5store::store::N5Store;

fn uint8_attrs(dimensions: Vec<i64>, block_size: Vec<i32>) -> DatasetAttributes {
    DatasetAttributes::new(dimensions, block_size, DataType::UINT8, Compression::gzip_default())
        .unwrap()
}

#[test]
fn grid_extent_is_ceiling_division() {
    let a = uint8_attrs(vec![10, 10], vec![4, 4]);
    assert_eq!(a.grid_extent(), vec![3, 3]);
    let b = uint8_attrs(vec![100], vec![10]);
    assert_eq!(b.grid_extent(), vec![10]);
    let c = uint8_attrs(vec![7, 9, 1], vec![3, 3, 2]);
    assert_eq!(c.grid_extent(), vec![3, 3, 1]);
    let d = uint8_attrs(vec![0, 5], vec![4, 4]);
    assert_eq!(d.grid_extent(), vec![0, 2]);
}

#[test]
fn block_count_and_bytes() {
    let a = DatasetAttributes::new(
        vec![10, 10],
        vec![4, 4],
        DataType::UINT16,
        Compression::Raw,
    )
    .unwrap();
    assert_eq!(a.block_count(), 16);
    assert_eq!(a.block_bytes(), 32);
}

#[test]
fn data_type_tags_round_trip() {
    let all = [
        DataType::UINT8,
        DataType::UINT16,
        DataType::UINT32,
        DataType::UINT64,
        DataType::INT8,
        DataType::INT16,
        DataType::INT32,
        DataType::INT64,
        DataType::FLOAT32,
        DataType::FLOAT64,
    ];
    for dt in all {
        let tag = dt.tag();
        assert_eq!(DataType::from_tag(tag.as_str()), Some(dt));
    }
    assert_eq!(DataType::from_tag("UINT7"), None);
    assert_eq!(DataType::from_tag("uint8"), None);
    assert_eq!(DataType::UINT64.size_bytes(), 8);
    assert_eq!(DataType::FLOAT32.size_bytes(), 4);
    assert_eq!(DataType::INT8.size_bytes(), 1);
}

#[test]
fn invalid_shapes_are_rejected() {
    let r = DatasetAttributes::new(vec![10], vec![4, 4], DataType::UINT8, Compression::Raw);
    assert_eq!(r.unwrap_err(), N5Error::InvalidShape);
    let r = DatasetAttributes::new(vec![10], vec![0], DataType::UINT8, Compression::Raw);
    assert_eq!(r.unwrap_err(), N5Error::InvalidShape);
    let r = DatasetAttributes::new(vec![-1], vec![4], DataType::UINT8, Compression::Raw);
    assert_eq!(r.unwrap_err(), N5Error::InvalidShape);
    let r = DatasetAttributes::new(vec![], vec![], DataType::UINT8, Compression::Raw);
    assert_eq!(r.unwrap_err(), N5Error::InvalidShape);
}

#[test]
fn open_missing_root_fails() {
    let r = N5Store::open(None);
    assert_eq!(r.unwrap_err(), N5Error::RootNotFound);
}

#[test]
fn open_or_create_is_idempotent() {
    let s = N5Store::open_or_create(None);
    let mut s = N5Store::open_or_create(Some(s));
    let attrs = uint8_attrs(vec![8], vec![4]);
    s.create_dataset("a", &attrs).unwrap();
    let s = N5Store::open_or_create(Some(s));
    assert!(s.dataset_exists("a"));
}

#[test]
fn create_dataset_twice_fails() {
    let mut s = N5Store::empty();
    let attrs = uint8_attrs(vec![10, 10], vec![4, 4]);
    s.create_dataset("group/data", &attrs).unwrap();
    assert!(s.dataset_exists("group/data"));
    let r = s.create_dataset("group/data", &attrs);
    assert_eq!(r.unwrap_err(), N5Error::DatasetAlreadyExists);
}

#[test]
fn attributes_round_trip_through_record() {
    let mut s = N5Store::empty();
    let attrs = DatasetAttributes::new(
        vec![12, 8],
        vec![3, 4],
        DataType::INT32,
        Compression::Gzip { level: 2 },
    )
    .unwrap();
    s.create_dataset("d", &attrs).unwrap();
    let back = s.get_dataset_attributes("d").unwrap();
    assert_eq!(back.dimensions, vec![12, 8]);
    assert_eq!(back.block_size, vec![3, 4]);
    assert_eq!(back.data_type, DataType::INT32);
    assert_eq!(back.compression, Compression::Gzip { level: 2 });
}

#[test]
fn missing_dataset_is_reported() {
    let s = N5Store::empty();
    assert!(!s.dataset_exists("nope"));
    assert_eq!(s.get_dataset_attributes("nope").unwrap_err(), N5Error::DatasetNotFound);
    assert_eq!(s.get_dataset_record("nope").unwrap_err(), N5Error::DatasetNotFound);
    let attrs = uint8_attrs(vec![8], vec![4]);
    let mut s = s;
    let r = s.write_block("nope", &attrs, &vec![0], &vec![0u8; 4]);
    assert_eq!(r.unwrap_err(), N5Error::DatasetNotFound);
    let r = s.read_block("nope", &attrs, &vec![0]);
    assert_eq!(r.unwrap_err(), N5Error::DatasetNotFound);
}

#[test]
fn unknown_codec_in_record() {
    let mut s = N5Store::empty();
    let rec = AttributeRecord {
        dimensions: vec![10],
        block_size: vec![5],
        data_type: "UINT8".to_string(),
        compression_type: "bzip2".to_string(),
        compression_level: 0,
    };
    s.create_dataset_from_record("d", &rec).unwrap();
    let e = s.get_dataset_attributes("d").unwrap_err();
    assert_eq!(e, N5Error::UnsupportedCodec { name: "bzip2".to_string() });
}

#[test]
fn unknown_data_type_in_record() {
    let mut s = N5Store::empty();
    let rec = AttributeRecord {
        dimensions: vec![10],
        block_size: vec![5],
        data_type: "COMPLEX64".to_string(),
        compression_type: "raw".to_string(),
        compression_level: 0,
    };
    s.create_dataset_from_record("d", &rec).unwrap();
    let e = s.get_dataset_attributes("d").unwrap_err();
    assert_eq!(e, N5Error::UnsupportedDataType { name: "COMPLEX64".to_string() });
}

#[test]
fn malformed_records_fail_to_parse() {
    let mut s = N5Store::empty();
    // a known codec with a level outside -1..=9
    let rec = AttributeRecord {
        dimensions: vec![10],
        block_size: vec![5],
        data_type: "UINT8".to_string(),
        compression_type: "gzip".to_string(),
        compression_level: 99,
    };
    s.create_dataset_from_record("bad-level", &rec).unwrap();
    assert_eq!(
        s.get_dataset_attributes("bad-level").unwrap_err(),
        N5Error::AttributeParseError
    );
    // mismatched ranks
    let rec = AttributeRecord {
        dimensions: vec![10, 10],
        block_size: vec![5],
        data_type: "UINT8".to_string(),
        compression_type: "raw".to_string(),
        compression_level: 0,
    };
    s.create_dataset_from_record("bad-rank", &rec).unwrap();
    assert_eq!(
        s.get_dataset_attributes("bad-rank").unwrap_err(),
        N5Error::AttributeParseError
    );
}

#[test]
fn default_gzip_level_in_record() {
    let mut s = N5Store::empty();
    let rec = AttributeRecord {
        dimensions: vec![10],
        block_size: vec![5],
        data_type: "UINT8".to_string(),
        compression_type: "gzip".to_string(),
        compression_level: -1,
    };
    s.create_dataset_from_record("d", &rec).unwrap();
    let a = s.get_dataset_attributes("d").unwrap();
    assert_eq!(a.compression, Compression::Gzip { level: n5store::codec::DEFAULT_GZIP_LEVEL });
}

#[test]
fn write_block_size_mismatch() {
    let mut s = N5Store::empty();
    let attrs = uint8_attrs(vec![10, 10], vec![4, 4]);
    s.create_dataset("d", &attrs).unwrap();
    let r = s.write_block("d", &attrs, &vec![0, 0], &vec![7u8; 15]);
    assert_eq!(r.unwrap_err(), N5Error::BlockSizeMismatch { expected: 16, actual: 15 });
    let r = s.write_block("d", &attrs, &vec![0, 0], &vec![7u8; 17]);
    assert_eq!(r.unwrap_err(), N5Error::BlockSizeMismatch { expected: 16, actual: 17 });
}

#[test]
fn block_write_read_round_trip_gzip() {
    let mut s = N5Store::empty();
    let attrs = uint8_attrs(vec![10, 10], vec![4, 4]);
    s.create_dataset("d", &attrs).unwrap();
    let data: Vec<u8> = (0u8..16).collect();
    s.write_block("d", &attrs, &vec![1, 2], &data).unwrap();
    let back = s.read_block("d", &attrs, &vec![1, 2]).unwrap().unwrap();
    assert_eq!(back, data);
    assert!(s.read_block("d", &attrs, &vec![0, 0]).unwrap().is_none());
}

#[test]
fn gzip_payload_is_really_compressed() {
    let mut s = N5Store::empty();
    let attrs = uint8_attrs(vec![16, 16], vec![8, 8]);
    s.create_dataset("d", &attrs).unwrap();
    let data = vec![0u8; 64];
    s.write_block("d", &attrs, &vec![0, 0], &data).unwrap();
    let payload = s.get_block_payload("d", &vec![0, 0]).unwrap().unwrap();
    // the stored bytes are a gzip stream, not the raw buffer
    assert_ne!(payload, data);
    assert_eq!(&payload[0..2], &[0x1f, 0x8b]);
    // and they decode back to the buffer
    let back = s.read_block("d", &attrs, &vec![0, 0]).unwrap().unwrap();
    assert_eq!(back, data);
}

#[test]
fn raw_codec_stores_bytes_unchanged() {
    let mut s = N5Store::empty();
    let attrs =
        DatasetAttributes::new(vec![8], vec![4], DataType::UINT8, Compression::Raw).unwrap();
    s.create_dataset("d", &attrs).unwrap();
    let data = vec![9u8, 8, 7, 6];
    s.write_block("d", &attrs, &vec![1], &data).unwrap();
    assert_eq!(s.get_block_payload("d", &vec![1]).unwrap().unwrap(), data);
    assert_eq!(s.read_block("d", &attrs, &vec![1]).unwrap().unwrap(), data);
}

#[test]
fn writing_same_block_twice_leaves_store_unchanged() {
    let mut s = N5Store::empty();
    let attrs = uint8_attrs(vec![10, 10], vec![4, 4]);
    s.create_dataset("d", &attrs).unwrap();
    let data: Vec<u8> = (100u8..116).collect();
    s.write_block("d", &attrs, &vec![2, 1], &data).unwrap();
    let payload_first = s.get_block_payload("d", &vec![2, 1]).unwrap().unwrap();
    s.write_block("d", &attrs, &vec![2, 1], &data).unwrap();
    let payload_second = s.get_block_payload("d", &vec![2, 1]).unwrap().unwrap();
    assert_eq!(payload_first, payload_second);
}

#[test]
fn overwrite_replaces_whole_block() {
    let mut s = N5Store::empty();
    let attrs = uint8_attrs(vec![8], vec![4]);
    s.create_dataset("d", &attrs).unwrap();
    s.write_block("d", &attrs, &vec![0], &vec![1, 2, 3, 4]).unwrap();
    s.write_block("d", &attrs, &vec![0], &vec![5, 6, 7, 8]).unwrap();
    assert_eq!(s.read_block("d", &attrs, &vec![0]).unwrap().unwrap(), vec![5, 6, 7, 8]);
}

#[test]
fn corrupt_gzip_block_is_reported() {
    let mut s = N5Store::empty();
    let attrs = uint8_attrs(vec![8], vec![4]);
    s.create_dataset("d", &attrs).unwrap();
    s.insert_block_payload("d", &vec![0], vec![0xde, 0xad, 0xbe, 0xef]).unwrap();
    assert_eq!(s.read_block("d", &attrs, &vec![0]).unwrap_err(), N5Error::CorruptBlock);
}

#[test]
fn wrong_length_raw_block_is_corrupt() {
    let mut s = N5Store::empty();
    let attrs =
        DatasetAttributes::new(vec![8], vec![4], DataType::UINT8, Compression::Raw).unwrap();
    s.create_dataset("d", &attrs).unwrap();
    s.insert_block_payload("d", &vec![0], vec![1, 2, 3]).unwrap();
    assert_eq!(s.read_block("d", &attrs, &vec![0]).unwrap_err(), N5Error::CorruptBlock);
}

#[test]
fn insert_payload_needs_dataset() {
    let mut s = N5Store::empty();
    let r = s.insert_block_payload("nope", &vec![0], vec![1, 2, 3]);
    assert_eq!(r.unwrap_err(), N5Error::DatasetNotFound);
}

#[test]
fn error_descriptions_are_nonempty() {
    assert!(!N5Error::RootNotFound.describe().is_empty());
    assert!(!N5Error::CorruptBlock.describe().is_empty());
    assert!(!N5Error::BlockSizeMismatch { expected: 1, actual: 2 }.describe().is_empty());
}

#[test]
fn open_surfaces_attribute_faults() {
    let mut s = N5Store::empty();
    let rec = AttributeRecord {
        dimensions: vec![10],
        block_size: vec![5],
        data_type: "BOOL".to_string(),
        compression_type: "raw".to_string(),
        compression_level: 0,
    };
    s.create_dataset_from_record("d", &rec).unwrap();
    let r = Dataset::open(Some(s), "d", true);
    assert_eq!(r.unwrap_err(), N5Error::UnsupportedDataType { name: "BOOL".to_string() });
}
