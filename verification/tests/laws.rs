//! What holds of the library as a whole, on concrete values.

use mosaic_core::batch::RecordBatch;
use mosaic_core::bits;
use mosaic_core::blocks;
use mosaic_core::bytes;
use mosaic_core::error::Error;
use mosaic_core::format::{COMPRESSION_NONE, COMPRESSION_ZSTD, FOOTER_SIZE};
use mosaic_core::input;
use mosaic_core::input::{InputFile, MemoryInput};
use mosaic_core::layout;
use mosaic_core::layout::{BucketLayout, Footer, RowGroupMeta};
use mosaic_core::reader;
use mosaic_core::reader::{MosaicReader, ReaderAccess};
use mosaic_core::schema;
use mosaic_core::schema::MosaicSchema;
use mosaic_core::stats::ColumnStats;
use mosaic_core::types::{DataType, Field, TimeUnit};
use mosaic_core::values;
use mosaic_core::values::{Cell, Value};
use mosaic_core::writer::{MemoryOutput, MosaicWriter, WriterOptions};

fn field(name: &str, data_type: DataType) -> Field {
    Field {
        name: name.to_string(),
        data_type,
        nullable: true,
        timezone: None,
    }
}

fn text(s: &str) -> Cell {
    Cell::Utf8(s.as_bytes().to_vec())
}

/// Columns of all types, of all encodings.
fn fields() -> Vec<Field> {
    vec![
        field("\u{4e2d}\u{6587}", DataType::Utf8),
        field("boolean", DataType::Boolean),
        field("int8", DataType::Int8),
        field("int16", DataType::Int16),
        field("int32", DataType::Int32),
        field("int64", DataType::Int64),
        field("float32", DataType::Float32),
        field("float64", DataType::Float64),
        field("date", DataType::Date32),
        field("time", DataType::Time32(TimeUnit::Millisecond)),
        field("binary", DataType::Binary),
        field("compact", DataType::Decimal128(18, -2)),
        field("large", DataType::Decimal128(38, 10)),
        field("millis", DataType::Timestamp(TimeUnit::Millisecond, false)),
        Field {
            timezone: Some("Europe/Z\u{fc}rich".to_string()),
            ..field("micros", DataType::Timestamp(TimeUnit::Microsecond, true))
        },
        field("nanos", DataType::Timestamp(TimeUnit::Nanosecond, false)),
        field("legacy", DataType::LegacyTimestampNanos),
        field("nothing", DataType::Int32),
        field("constant", DataType::Utf8),
    ]
}

fn row(i: i64) -> Vec<Cell> {
    vec![
        text(["\u{4e00}", "two", ""][(i % 3) as usize]),
        Cell::Boolean(i % 3 == 0),
        Cell::Int8(i as i8),
        Cell::Int16(-i as i16),
        Cell::Int32(i as i32 * 1_000_003),
        Cell::Int64(i64::MIN + i),
        Cell::Float32((i as f32 / 3.0).to_bits()),
        Cell::Float64(if i == 5 { f64::NAN } else { -0.0 * i as f64 }.to_bits()),
        Cell::Date32(i as i32),
        Cell::Time32(i as i32 * 1000),
        Cell::Binary(vec![i as u8; (i % 5) as usize]),
        Cell::Decimal128((i - 50) as i128),
        Cell::Decimal128(i128::MAX - i as i128),
        Cell::TimestampMillis(i),
        Cell::TimestampMicros(-i),
        Cell::TimestampNanos(i * 999_999_999 - 50),
        Cell::LegacyTimestampNanos(Some(i64::MIN + i), Some(i as i32)),
        Cell::Null,
        text("same"),
    ]
}

/// The columns of some rows, with some nulls.
fn columns(rows: std::ops::Range<i64>) -> Vec<Vec<Cell>> {
    let mut result: Vec<Vec<Cell>> = vec![Vec::new(); fields().len()];
    for i in rows {
        for (c, cell) in row(i).into_iter().enumerate() {
            result[c].push(if (i as usize + c) % 11 == 0 { Cell::Null } else { cell });
        }
    }
    result
}

fn written(options: WriterOptions) -> Vec<u8> {
    let mut writer = MosaicWriter::new(MemoryOutput::new(), &fields(), options).unwrap();
    for k in 0..4 {
        let rows = columns(100 * k..100 * (k + 1));
        let batch = RecordBatch::try_new(fields(), rows, 100).unwrap();
        writer.write_batch(&batch).unwrap();
    }
    writer.close().unwrap();
    writer.output().buf.clone()
}

fn options(compression: u8, page_size_threshold: usize) -> WriterOptions {
    WriterOptions {
        compression,
        page_size_threshold,
        num_buckets: 5,
        row_group_max_size: 20_000,
        stats_columns: vec![4, 0],
        ..Default::default()
    }
}

#[test]
fn a_closed_file_reads_back_as_it_was_written() {
    for (compression, threshold) in [
        (COMPRESSION_NONE, 32768),
        (COMPRESSION_ZSTD, 1 << 30),
        (COMPRESSION_ZSTD, 1),
        (COMPRESSION_ZSTD, 2000),
    ] {
        let data = written(options(compression, threshold));
        let len = data.len() as u64;
        let reader = MosaicReader::new(MemoryInput { data }, len).unwrap();
        assert!(reader.num_row_groups() > 1);
        let mut found: Vec<Vec<Cell>> = vec![Vec::new(); fields().len()];
        for g in 0..reader.num_row_groups() {
            let mut group = reader.row_group_reader(g).unwrap();
            let batch = group.read_columns().unwrap();
            assert_eq!(batch.fields, fields());
            assert_eq!(batch.num_rows, reader.row_group_num_rows(g).unwrap());
            for (c, column) in batch.columns.into_iter().enumerate() {
                found[c].extend(column);
            }
        }
        assert!(found == columns(0..400));
    }
}

#[test]
fn statistics_of_nanoseconds_that_are_all_null_read_back() {
    let schema = vec![
        field("a", DataType::Timestamp(TimeUnit::Nanosecond, false)),
        field("b", DataType::Int32),
    ];
    let options = WriterOptions {
        stats_columns: vec![0, 1],
        ..Default::default()
    };
    let mut writer = MosaicWriter::new(MemoryOutput::new(), &schema, options).unwrap();
    let columns = vec![
        vec![Cell::Null, Cell::Null],
        vec![Cell::Int32(7), Cell::Int32(3)],
    ];
    let batch = RecordBatch::try_new(schema, columns.clone(), 2).unwrap();
    writer.write_batch(&batch).unwrap();
    writer.close().unwrap();
    let data = writer.output().buf.clone();
    let len = data.len() as u64;
    let reader = MosaicReader::new(MemoryInput { data }, len).unwrap();
    let stats = reader.row_group_stats(0).unwrap();
    assert_eq!(stats[0].null_count, 2);
    assert_eq!(stats[0].min, None);
    assert_eq!(stats[1].min, Some(Value::Integer(3)));
    let mut group = reader.row_group_reader(0).unwrap();
    assert_eq!(group.read_columns().unwrap().columns, columns);
}

#[test]
fn a_projection_reads_the_columns_it_names() {
    for threshold in [1, 1 << 30] {
        let data = written(options(COMPRESSION_ZSTD, threshold));
        let len = data.len() as u64;
        let mut reader = MosaicReader::new(MemoryInput { data }, len).unwrap();
        let all = {
            let mut group = reader.row_group_reader(0).unwrap();
            group.read_columns().unwrap()
        };
        let mut some = reader.row_group_reader_projected(0, &[17, 3, 8, 3]).unwrap();
        let batch = some.read_columns().unwrap();
        assert_eq!(batch.num_rows, all.num_rows);
        assert!(
            batch.columns
                == vec![
                    all.columns[3].clone(),
                    all.columns[8].clone(),
                    all.columns[17].clone()
                ]
        );

        reader.project(&["nothing", "int16", "date", "int16"]).unwrap();
        let mut some = reader.row_group_reader(0).unwrap();
        let batch = some.read_columns().unwrap();
        let names: Vec<&str> = batch.fields.iter().map(|f| f.name.as_str()).collect();
        assert_eq!(names, vec!["nothing", "int16", "date"]);
        assert!(batch.columns[1] == all.columns[3]);
    }
}

#[test]
fn statistics_bound_the_rows_of_their_group() {
    let data = written(options(COMPRESSION_ZSTD, 1));
    let len = data.len() as u64;
    let reader = MosaicReader::new(MemoryInput { data }, len).unwrap();
    let mut nulls = 0;
    for g in 0..reader.num_row_groups() {
        let stats = reader.row_group_stats(g).unwrap();
        assert_eq!(stats.len(), 2);
        assert_eq!(stats[0].column_index, 4);
        assert_eq!(stats[1].column_index, 0);
        nulls += stats[0].null_count;
        let mut group = reader.row_group_reader_projected(g, &[4]).unwrap();
        let batch = group.read_columns().unwrap();
        let numbers: Vec<i32> = batch.columns[0]
            .iter()
            .filter_map(|cell| match cell {
                Cell::Int32(v) => Some(*v),
                _ => None,
            })
            .collect();
        let least = *numbers.iter().min().unwrap();
        let greatest = *numbers.iter().max().unwrap();
        assert_eq!(stats[0].min, Some(Value::Integer(least)));
        assert_eq!(stats[0].max, Some(Value::Integer(greatest)));
        assert_eq!(
            stats[0].null_count as usize,
            batch.num_rows - numbers.len()
        );
    }
    let expected = columns(0..400)[4]
        .iter()
        .filter(|cell| matches!(cell, Cell::Null))
        .count();
    assert_eq!(nulls as usize, expected);
}

#[test]
fn frames_hold_what_was_compressed() {
    let raw: Vec<u8> = (0..10_000u32).map(|i| (i / 100) as u8).collect();
    for level in [1, 3, 9] {
        let frame = blocks::deflate(&raw, level).unwrap();
        assert!(frame.len() < raw.len());
        assert_eq!(blocks::inflate(&frame, raw.len()).unwrap(), raw);
        assert_eq!(
            blocks::unpack(COMPRESSION_ZSTD, &frame, raw.len()).unwrap(),
            raw
        );
    }
    assert_eq!(blocks::check_size(vec![1, 2], 2), Ok(vec![1, 2]));
    assert_eq!(blocks::check_size(vec![1, 2], 1), Err(Error::Decompress));
}

#[test]
fn schemas_round_trip() {
    let schema = MosaicSchema::from_fields(&fields(), 7).unwrap();
    assert_eq!(schema.num_buckets, 7);
    let copy = MosaicSchema::deserialize(&schema.serialize()).unwrap();
    assert_eq!(copy.num_buckets, 7);
    assert_eq!(copy.bucket_to_global, schema.bucket_to_global);
    for (c, f) in fields().iter().enumerate() {
        assert_eq!(&copy.columns[c].to_field(), f);
        assert_eq!(copy.columns[c].bucket_id, c % 7);
    }
    // No more buckets than columns, and at least one.
    let one = vec![field("a", DataType::Int32)];
    assert_eq!(MosaicSchema::from_fields(&one, 9).unwrap().num_buckets, 1);
    assert_eq!(MosaicSchema::from_fields(&one, 0).unwrap().num_buckets, 1);
    let none = MosaicSchema::from_fields(&vec![], 0).unwrap();
    assert_eq!(none.serialize(), vec![1, 0]);
}

#[test]
fn footers_and_indices_round_trip() {
    let footer = Footer {
        index_offset: 300,
        schema_offset: 200,
        num_buckets: 3,
        num_row_groups: 2,
        compression: COMPRESSION_ZSTD,
    };
    let bytes = layout::write_footer(&footer);
    assert_eq!(bytes.len(), FOOTER_SIZE);
    assert_eq!(&bytes[24..], &[1, 1, 0, 0, b'M', b'O', b'S', b'A']);
    let copy = layout::read_footer(&bytes, 400).unwrap();
    assert_eq!(copy.index_offset, 300);
    assert_eq!(copy.schema_offset, 200);
    assert_eq!(copy.num_buckets, 3);
    assert_eq!(copy.num_row_groups, 2);

    let schema = MosaicSchema::from_fields(
        &vec![field("a", DataType::Int32), field("b", DataType::Utf8)],
        2,
    )
    .unwrap();
    let meta = RowGroupMeta {
        num_rows: 10,
        bucket_offsets: vec![7, 0],
        bucket_layouts: vec![
            BucketLayout::Monolithic {
                compressed_size: 20,
                uncompressed_size: 40,
            },
            BucketLayout::Empty,
        ],
        stats: vec![ColumnStats {
            column_index: 0,
            null_count: 1,
            min: Some(Value::Integer(1)),
            max: Some(Value::Integer(9)),
        }],
    };
    let bytes = layout::write_index(&vec![meta.clone()], &schema.columns, 2).unwrap();
    let copy = layout::read_index(&bytes, 100, 2, &schema.columns, 1).unwrap();
    assert_eq!(copy.len(), 1);
    assert_eq!(copy[0].num_rows, 10);
    assert_eq!(copy[0].bucket_offsets, meta.bucket_offsets);
    assert_eq!(copy[0].bucket_layouts, meta.bucket_layouts);
    assert_eq!(copy[0].stats, meta.stats);
}

#[test]
fn layouts_are_told_apart_by_their_sizes() {
    for l in [
        BucketLayout::Empty,
        BucketLayout::Paged { total_size: 9 },
        BucketLayout::Monolithic {
            compressed_size: 9,
            uncompressed_size: 12,
        },
    ] {
        let (a, b) = l.encode();
        assert_eq!(BucketLayout::decode(a, b), Ok(l));
    }
}

#[test]
fn decimals_round_trip_as_big_integers() {
    assert_eq!(values::i128_to_biginteger_bytes(0), vec![0]);
    assert_eq!(values::i128_to_biginteger_bytes(-1), vec![0xFF]);
    assert_eq!(values::i128_to_biginteger_bytes(128), vec![0, 0x80]);
    assert_eq!(values::i128_to_biginteger_bytes(-129), vec![0xFF, 0x7F]);
    for v in [0, 1, -1, 127, 128, -128, -129, i128::MAX, i128::MIN] {
        let b = values::i128_to_biginteger_bytes(v);
        assert_eq!(values::biginteger_bytes_to_i128(&b), v);
    }
}

#[test]
fn numbers_and_bits_have_exact_bytes() {
    let mut buf = vec![];
    bytes::write_be(&mut buf, 0x0102_0304, 4);
    bytes::write_le4(&mut buf, 0x0102_0304);
    assert_eq!(buf, vec![1, 2, 3, 4, 4, 3, 2, 1]);
    assert_eq!(bytes::read_be(&buf, 0, 4), 0x0102_0304);
    assert_eq!(bytes::read_le4(&buf, 4), 0x0102_0304);

    let flags = vec![true, false, true, true, false, false, false, false, true];
    assert_eq!(bits::pack_bits(&flags), vec![0b0000_1101, 1]);
    assert!(bits::read_bit(&[0b0000_1101, 1], 0, 8));
    assert_eq!(bits::bytes_for_bits(9), 2);
    assert_eq!(
        [1, 2, 3, 4, 5, 255, 256, 257].map(bits::bit_width),
        [0, 1, 2, 2, 3, 8, 8, 9]
    );
}

#[test]
fn merged_reads_bring_the_ranges_that_were_asked_for() {
    let data: Vec<u8> = (0..3_000_000u32).map(|i| (i % 251) as u8).collect();
    let file = MemoryInput { data: data.clone() };
    let ranges = [(2_500_000u64, 10usize), (5, 20), (25, 0), (1_000, 7), (10, 30)];
    let plan = input::plan_ranges(&ranges);
    assert_eq!(plan.len(), 2);
    let read = file.read_ranges(&ranges).unwrap();
    for (i, (start, len)) in ranges.iter().enumerate() {
        let start = *start as usize;
        assert_eq!(read[i], data[start..start + len]);
    }
    assert!(file.read_ranges(&[(2_999_999, 2)]).is_err());
    let (joined, owners) = input::join_adjacent(&vec![(0, 4), (4, 6), (20, 5)]);
    assert_eq!(joined, vec![(0, 10), (20, 5)]);
    assert_eq!(owners, vec![0, 0, 1]);
}

#[test]
fn names_lead_to_the_places_of_columns() {
    let names = vec!["legacy".to_string(), "nowhere".to_string(), "int8".to_string()];
    assert_eq!(schema::column_places(&fields(), &names), vec![16, 2]);
    assert_eq!(schema::column_places(&fields(), &vec![]), Vec::<usize>::new());
}

#[test]
fn the_end_of_a_file_is_read_first() {
    assert_eq!(reader::tail_range(40), (0, 40));
    assert_eq!(reader::tail_range(65_536), (0, 65_536));
    assert_eq!(reader::tail_range(100_000), (34_464, 65_536));
    let footer = |schema_offset| Footer {
        index_offset: 99_000,
        schema_offset,
        num_buckets: 1,
        num_row_groups: 1,
        compression: COMPRESSION_NONE,
    };
    assert_eq!(reader::metadata_range(&footer(34_464), 100_000), None);
    assert_eq!(
        reader::metadata_range(&footer(34_463), 100_000),
        Some((34_463, 65_505))
    );
}

#[test]
fn an_empty_projection_reads_nothing_and_keeps_the_rows() {
    let data = written(options(COMPRESSION_ZSTD, 1));
    let len = data.len() as u64;
    let reader = MosaicReader::new(MemoryInput { data }, len).unwrap();
    let mut group = reader.row_group_reader_projected(0, &[]).unwrap();
    let batch = group.read_columns().unwrap();
    assert!(batch.columns.is_empty());
    assert_eq!(batch.num_rows, reader.row_group_num_rows(0).unwrap());
}

#[test]
fn unsorted_ranges_are_planned_in_order() {
    let ranges: Vec<(u64, usize)> = (0..1000)
        .map(|i| ((i * 7919 % 1000) * 2_000_000, 10))
        .collect();
    let plan = input::plan_ranges(&ranges);
    assert_eq!(plan.len(), 1000);
    for (k, merged) in plan.iter().enumerate() {
        assert_eq!(merged.start, k as u64 * 2_000_000);
        assert_eq!(merged.end, merged.start + 10);
        assert_eq!(ranges[merged.members[0]].0, merged.start);
    }
    assert!(input::plan_ranges(&[]).is_empty());
}
