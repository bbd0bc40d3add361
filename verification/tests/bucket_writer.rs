//! Buckets as bytes: the encoding of each column, and columns read back.

use mosaic_core::bucket_reader::{BucketReader, ColumnPageReader};
use mosaic_core::bucket_writer::BucketWriter;
use mosaic_core::error::Error;
use mosaic_core::format::{ENCODING_ALL_NULL, ENCODING_CONST, ENCODING_DICT, ENCODING_PLAIN};
use mosaic_core::types::{DataType, TimeUnit};
use mosaic_core::values::{Cell, Value};

fn int32_cells(items: impl IntoIterator<Item = i32>) -> Vec<Cell> {
    items.into_iter().map(Cell::Int32).collect()
}

fn int64_cells(items: impl IntoIterator<Item = i64>) -> Vec<Cell> {
    items.into_iter().map(Cell::Int64).collect()
}

fn string_cells<'a>(items: impl IntoIterator<Item = &'a str>) -> Vec<Cell> {
    items
        .into_iter()
        .map(|s| Cell::Utf8(s.as_bytes().to_vec()))
        .collect()
}

fn optional_int32_cells(items: impl IntoIterator<Item = Option<i32>>) -> Vec<Cell> {
    items
        .into_iter()
        .map(|item| item.map_or(Cell::Null, Cell::Int32))
        .collect()
}

fn nulls(n: usize) -> Vec<Cell> {
    vec![Cell::Null; n]
}

#[test]
fn test_all_null_encoding() {
    let mut writer = BucketWriter::new(&vec![DataType::Int32], 32768, 255);

    let arr = nulls(10);
    writer.write_columns(&vec![&arr]).unwrap();

    let data = writer.finish();
    assert!(!data.is_empty());
    assert_eq!(data[0] & 0x03, ENCODING_ALL_NULL);
}

#[test]
fn test_const_encoding() {
    let mut writer = BucketWriter::new(&vec![DataType::Int32], 32768, 255);

    let arr = int32_cells(vec![42; 10]);
    writer.write_columns(&vec![&arr]).unwrap();

    let data = writer.finish();
    assert_eq!(data[0] & 0x03, ENCODING_CONST);
}

#[test]
fn test_dict_encoding() {
    let mut writer = BucketWriter::new(&vec![DataType::Int32], 32768, 255);

    let arr = int32_cells((0..100).map(|i| i % 3));
    writer.write_columns(&vec![&arr]).unwrap();

    let data = writer.finish();
    assert_eq!(data[0] & 0x03, ENCODING_DICT);
}

#[test]
fn test_plain_encoding() {
    let mut writer = BucketWriter::new(&vec![DataType::Int32], 32768, 255);

    let arr = int32_cells(0..1000);
    writer.write_columns(&vec![&arr]).unwrap();

    let data = writer.finish();
    assert_eq!(data[0] & 0x03, ENCODING_PLAIN);
}

#[test]
fn bucket_writer_test_const_string_encoding() {
    let mut writer = BucketWriter::new(&vec![DataType::Utf8], 32768, 255);

    let arr = string_cells(vec!["same"; 50]);
    writer.write_columns(&vec![&arr]).unwrap();

    let data = writer.finish();
    assert_eq!(data[0] & 0x03, ENCODING_CONST);
}

#[test]
fn bucket_writer_test_dict_string_encoding() {
    let mut writer = BucketWriter::new(&vec![DataType::Utf8], 32768, 255);

    let arr = string_cells((0..60).map(|i| ["aa", "bb", "cc"][i % 3]));
    writer.write_columns(&vec![&arr]).unwrap();

    let data = writer.finish();
    assert_eq!(data[0] & 0x03, ENCODING_DICT);
}

#[test]
fn test_const_with_nulls() {
    let mut writer = BucketWriter::new(&vec![DataType::Int32], 32768, 255);

    let arr = optional_int32_cells((0..20).map(|i| if i % 3 == 0 { None } else { Some(42) }));
    writer.write_columns(&vec![&arr]).unwrap();

    let data = writer.finish();
    assert_eq!(data[0] & 0x03, ENCODING_CONST);
}

#[test]
fn test_dict_with_nulls() {
    let mut writer = BucketWriter::new(&vec![DataType::Int32], 32768, 255);

    let arr = optional_int32_cells((0..100).map(|i| if i % 5 == 0 { None } else { Some(i % 3) }));
    writer.write_columns(&vec![&arr]).unwrap();

    let data = writer.finish();
    assert_eq!(data[0] & 0x03, ENCODING_DICT);
}

#[test]
fn test_timestamp_nanos_byte_dict_after_no_null_batch() {
    let types = vec![DataType::Timestamp(TimeUnit::Nanosecond, false)];
    let mut writer = BucketWriter::new(&types, 32768, 255);

    let first = vec![
        Cell::TimestampNanos(1),
        Cell::Null,
        Cell::TimestampNanos(2),
    ];
    writer.write_columns(&vec![&first]).unwrap();

    let second: Vec<Cell> = (0..120)
        .map(|i| Cell::TimestampNanos(3 + (i % 3) as i64))
        .collect();
    writer.write_columns(&vec![&second]).unwrap();

    let data = writer.finish();
    assert_eq!(data[0] & 0x03, ENCODING_DICT);
}

#[test]
fn test_multi_column_mixed_encodings() {
    let types = vec![DataType::Int32, DataType::Utf8, DataType::Int64];
    let mut writer = BucketWriter::new(&types, 32768, 255);

    let col0 = nulls(100);
    let col1 = string_cells(vec!["same"; 100]);
    let col2 = int64_cells((0..100).map(|i| i % 4));

    writer.write_columns(&vec![&col0, &col1, &col2]).unwrap();

    let data = writer.finish();
    assert_eq!(data[0] & 0x03, ENCODING_ALL_NULL);
    assert_eq!((data[0] >> 2) & 0x03, ENCODING_CONST);
    assert_eq!((data[0] >> 4) & 0x03, ENCODING_DICT);
}

#[test]
fn test_reset_and_reuse() {
    let mut writer = BucketWriter::new(&vec![DataType::Int32], 32768, 255);

    let arr1 = int32_cells(vec![42; 10]);
    writer.write_columns(&vec![&arr1]).unwrap();
    let data1 = writer.finish();
    assert_eq!(data1[0] & 0x03, ENCODING_CONST);

    writer.reset();
    assert!(writer.is_empty());

    let arr2 = int32_cells(0..1000);
    writer.write_columns(&vec![&arr2]).unwrap();
    let data2 = writer.finish();
    assert_eq!(data2[0] & 0x03, ENCODING_PLAIN);
}

#[test]
fn bucket_round_trip_of_every_encoding() {
    let types = vec![
        DataType::Int32,
        DataType::Utf8,
        DataType::Int64,
        DataType::Boolean,
        DataType::Decimal128(30, 2),
    ];
    let columns = vec![
        nulls(100),
        string_cells(vec!["same"; 100]),
        int64_cells((0..100).map(|i| i % 4)),
        (0..100)
            .map(|i| if i % 7 == 0 { Cell::Null } else { Cell::Boolean(i % 2 == 0) })
            .collect(),
        (0..100i128)
            .map(|i| Cell::Decimal128((i - 50) * 1_000_000_000_000_000_000_000))
            .collect(),
    ];
    let mut writer = BucketWriter::new(&types, 32768, 255);
    let arrays: Vec<&Vec<Cell>> = columns.iter().collect();
    writer.write_columns(&arrays).unwrap();
    let data = writer.finish();

    let reader = BucketReader::new(types, data, 100).unwrap();
    assert_eq!(reader.read_all_columns().unwrap(), columns);
    for i in 0..columns.len() {
        assert_eq!(reader.read_one_column(i).unwrap(), columns[i]);
    }
}

#[test]
fn exact_bytes_of_small_buckets() {
    // Encodings, no null bitmap, and the constant.
    let mut writer = BucketWriter::new(&vec![DataType::Int32], 32768, 255);
    let arr = int32_cells(vec![42; 3]);
    assert_eq!(writer.write_columns(&vec![&arr]).unwrap(), 3 * 4 + 3);
    assert_eq!(writer.finish(), vec![1, 0, 0, 0, 0, 42]);

    // Encodings, and one value after the other.
    let mut writer = BucketWriter::new(&vec![DataType::Int32], 32768, 255);
    let arr = int32_cells(vec![1, -1]);
    writer.write_columns(&vec![&arr]).unwrap();
    assert_eq!(
        writer.finish(),
        vec![3, 0, 0, 0, 0, 1, 0xFF, 0xFF, 0xFF, 0xFF]
    );
}

#[test]
fn refused_cells_leave_the_bucket_alone() {
    let types = vec![DataType::Int32, DataType::Utf8];
    let mut writer = BucketWriter::new(&types, 32768, 255);
    let good = int32_cells(vec![1, 2]);
    let bad = int32_cells(vec![3, 4]);
    assert_eq!(
        writer.write_columns(&vec![&good, &bad]),
        Err(Error::ColumnTypeMismatch)
    );
    assert!(writer.is_empty());
}

#[test]
fn pages_round_trip() {
    let types = vec![DataType::Int32, DataType::Utf8, DataType::Int64];
    let columns = vec![
        int32_cells(0..300),
        string_cells((0..300).map(|i| ["aa", "bb", "cc"][i % 3])),
        nulls(300),
    ];
    let mut writer = BucketWriter::new(&types, 32768, 255);
    let arrays: Vec<&Vec<Cell>> = columns.iter().collect();
    writer.write_columns(&arrays).unwrap();
    let paged = writer.finish_paged();
    assert_eq!(
        paged.encodings,
        vec![ENCODING_PLAIN, ENCODING_DICT, ENCODING_ALL_NULL]
    );
    assert_eq!(paged.has_nulls, vec![false, false, false]);
    assert!(paged.column_pages[2].is_none());
    for i in 0..types.len() {
        let reader = ColumnPageReader::new(
            types[i],
            paged.encodings[i],
            paged.has_nulls[i],
            Value::Null,
            paged.column_pages[i].clone().unwrap_or_default(),
            300,
        )
        .unwrap();
        assert_eq!(reader.read_all().unwrap(), columns[i]);
    }
}
