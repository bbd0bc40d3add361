//! Corrupted files, encodings at their limits, statistics, row group boundaries and
//! what holds of every file.

use mosaic_core::batch::RecordBatch;
use mosaic_core::error::{Error, ErrorKind};
use mosaic_core::format::{COMPRESSION_NONE, COMPRESSION_ZSTD, FOOTER_SIZE, VERSION};
use mosaic_core::input::MemoryInput;
use mosaic_core::reader::{MosaicReader, ReaderAccess};
use mosaic_core::types::{DataType, Field, TimeUnit};
use mosaic_core::values::Cell;
use mosaic_core::writer::{MemoryOutput, MosaicWriter, WriterOptions};

fn field(name: impl Into<String>, data_type: DataType, nullable: bool) -> Field {
    Field {
        name: name.into(),
        data_type,
        nullable,
        timezone: None,
    }
}

fn zoned_field(name: &str, unit: TimeUnit, zone: &str, nullable: bool) -> Field {
    Field {
        name: name.to_string(),
        data_type: DataType::Timestamp(unit, true),
        nullable,
        timezone: Some(zone.to_string()),
    }
}

fn batch_of(fields: Vec<Field>, columns: Vec<Vec<Cell>>) -> Result<RecordBatch, Error> {
    let num_rows = columns.first().map_or(0, |column| column.len());
    RecordBatch::try_new(fields, columns, num_rows)
}

/// The items of a column, each of which may be null.
trait Items<T> {
    fn items(self) -> Vec<Option<T>>;
}

impl<T> Items<T> for Vec<T> {
    fn items(self) -> Vec<Option<T>> {
        self.into_iter().map(Some).collect()
    }
}

impl<T> Items<T> for Vec<Option<T>> {
    fn items(self) -> Vec<Option<T>> {
        self
    }
}

/// The items of a column of one type.
struct Typed<T> {
    items: Vec<Option<T>>,
}

impl<T: Clone> Typed<T> {
    fn value(&self, i: usize) -> T {
        self.items[i].clone().expect("null item")
    }
    fn is_null(&self, i: usize) -> bool {
        self.items[i].is_none()
    }
    fn len(&self) -> usize {
        self.items.len()
    }
    fn null_count(&self) -> usize {
        self.items.iter().filter(|item| item.is_none()).count()
    }
    fn values(&self) -> Vec<T> {
        self.items.iter().flatten().cloned().collect()
    }
}

fn typed<T>(cells: &[Cell], pick: impl Fn(&Cell) -> Option<T>) -> Typed<T> {
    let items = cells
        .iter()
        .map(|cell| match cell {
            Cell::Null => None,
            other => match pick(other) {
                Some(v) => Some(v),
                None => panic!("unexpected cell {:?}", other),
            },
        })
        .collect();
    Typed { items }
}

fn null_count(cells: &[Cell]) -> usize {
    cells.iter().filter(|cell| matches!(cell, Cell::Null)).count()
}

fn boolean_cells(items: impl Items<bool>) -> Vec<Cell> {
    items
        .items()
        .into_iter()
        .map(|item| item.map_or(Cell::Null, |v| Cell::Boolean(v)))
        .collect()
}

fn int8_cells(items: impl Items<i8>) -> Vec<Cell> {
    items
        .items()
        .into_iter()
        .map(|item| item.map_or(Cell::Null, |v| Cell::Int8(v)))
        .collect()
}

fn int16_cells(items: impl Items<i16>) -> Vec<Cell> {
    items
        .items()
        .into_iter()
        .map(|item| item.map_or(Cell::Null, |v| Cell::Int16(v)))
        .collect()
}

fn int32_cells(items: impl Items<i32>) -> Vec<Cell> {
    items
        .items()
        .into_iter()
        .map(|item| item.map_or(Cell::Null, |v| Cell::Int32(v)))
        .collect()
}

fn int64_cells(items: impl Items<i64>) -> Vec<Cell> {
    items
        .items()
        .into_iter()
        .map(|item| item.map_or(Cell::Null, |v| Cell::Int64(v)))
        .collect()
}

fn float32_cells(items: impl Items<f32>) -> Vec<Cell> {
    items
        .items()
        .into_iter()
        .map(|item| item.map_or(Cell::Null, |v| Cell::Float32(v.to_bits())))
        .collect()
}

fn float64_cells(items: impl Items<f64>) -> Vec<Cell> {
    items
        .items()
        .into_iter()
        .map(|item| item.map_or(Cell::Null, |v| Cell::Float64(v.to_bits())))
        .collect()
}

fn date_cells(items: impl Items<i32>) -> Vec<Cell> {
    items
        .items()
        .into_iter()
        .map(|item| item.map_or(Cell::Null, |v| Cell::Date32(v)))
        .collect()
}

fn time_cells(items: impl Items<i32>) -> Vec<Cell> {
    items
        .items()
        .into_iter()
        .map(|item| item.map_or(Cell::Null, |v| Cell::Time32(v)))
        .collect()
}

fn decimal_cells(items: impl Items<i128>) -> Vec<Cell> {
    items
        .items()
        .into_iter()
        .map(|item| item.map_or(Cell::Null, |v| Cell::Decimal128(v)))
        .collect()
}

fn timestamp_millis_cells(items: impl Items<i64>) -> Vec<Cell> {
    items
        .items()
        .into_iter()
        .map(|item| item.map_or(Cell::Null, |v| Cell::TimestampMillis(v)))
        .collect()
}

fn timestamp_micros_cells(items: impl Items<i64>) -> Vec<Cell> {
    items
        .items()
        .into_iter()
        .map(|item| item.map_or(Cell::Null, |v| Cell::TimestampMicros(v)))
        .collect()
}

fn string_cells<'a>(items: impl Items<&'a str>) -> Vec<Cell> {
    items
        .items()
        .into_iter()
        .map(|item| item.map_or(Cell::Null, |v| Cell::Utf8(v.as_bytes().to_vec())))
        .collect()
}

fn binary_cells<'a>(items: impl Items<&'a [u8]>) -> Vec<Cell> {
    items
        .items()
        .into_iter()
        .map(|item| item.map_or(Cell::Null, |v| Cell::Binary(v.to_vec())))
        .collect()
}

fn legacy_nanos_cells(millis: Vec<Option<i64>>, nanos: Vec<Option<i32>>) -> Vec<Cell> {
    millis
        .into_iter()
        .zip(nanos)
        .map(|(m, n)| match m {
            None => Cell::Null,
            Some(_) => Cell::LegacyTimestampNanos(m, n),
        })
        .collect()
}

fn read_boolean(cells: &[Cell]) -> Typed<bool> {
    typed(cells, |cell| match cell {
        Cell::Boolean(v) => Some(*v),
        _ => None,
    })
}

fn read_int32(cells: &[Cell]) -> Typed<i32> {
    typed(cells, |cell| match cell {
        Cell::Int32(v) => Some(*v),
        _ => None,
    })
}

fn read_int64(cells: &[Cell]) -> Typed<i64> {
    typed(cells, |cell| match cell {
        Cell::Int64(v) => Some(*v),
        _ => None,
    })
}

fn read_decimal(cells: &[Cell]) -> Typed<i128> {
    typed(cells, |cell| match cell {
        Cell::Decimal128(v) => Some(*v),
        _ => None,
    })
}

fn read_string(cells: &[Cell]) -> Typed<String> {
    typed(cells, |cell| match cell {
        Cell::Utf8(v) => Some(String::from_utf8(v.clone()).unwrap()),
        _ => None,
    })
}

fn read_binary(cells: &[Cell]) -> Typed<Vec<u8>> {
    typed(cells, |cell| match cell {
        Cell::Binary(v) => Some(v.clone()),
        _ => None,
    })
}

fn read_legacy_nanos(cells: &[Cell]) -> Typed<(i64, i32)> {
    typed(cells, |cell| match cell {
        Cell::LegacyTimestampNanos(Some(m), Some(n)) => Some((*m, *n)),
        _ => None,
    })
}

fn write_file(schema: &Vec<Field>, batches: &[RecordBatch], options: WriterOptions) -> Vec<u8> {
    let out = MemoryOutput::new();
    let mut writer = MosaicWriter::new(out, schema, options).unwrap();
    for batch in batches {
        writer.write_batch(batch).unwrap();
    }
    writer.close().unwrap();
    writer.output().buf.clone()
}

fn read_all(data: &[u8]) -> Vec<RecordBatch> {
    let input = MemoryInput {
        data: data.to_vec(),
    };
    let reader = MosaicReader::new(input, data.len() as u64).unwrap();
    let mut result = Vec::new();
    for rg in 0..reader.num_row_groups() {
        let mut rg_reader = reader.row_group_reader(rg).unwrap();
        result.push(rg_reader.read_columns().unwrap());
    }
    result
}

// ======================== Bad Data / Corruption Tests ========================

#[test]
fn test_file_too_small() {
    let data = vec![0u8; 10];
    let input = MemoryInput { data: data.clone() };
    match MosaicReader::new(input, data.len() as u64) {
        Err(e) => assert_eq!(e.kind(), ErrorKind::InvalidData),
        Ok(_) => panic!("expected error for file too small"),
    }
}

#[test]
fn test_bad_magic_bytes() {
    let schema = vec![field("a", DataType::Int32, false)];
    let batch = batch_of(
        schema.clone(),
        vec![int32_cells(vec![1, 2, 3])],
    )
    .unwrap();
    let mut data = write_file(&schema, &[batch], WriterOptions::default());

    // Corrupt magic bytes at end of file
    let len = data.len();
    data[len - 4] = b'X';
    data[len - 3] = b'X';

    let input = MemoryInput { data: data.clone() };
    match MosaicReader::new(input, data.len() as u64) {
        Err(e) => assert!(e.message().contains("bad magic"), "got: {:?}", e),
        Ok(_) => panic!("expected error for bad magic bytes"),
    }
}

#[test]
fn test_corrupted_version() {
    let schema = vec![field("a", DataType::Int32, false)];
    let batch = batch_of(
        schema.clone(),
        vec![int32_cells(vec![1, 2, 3])],
    )
    .unwrap();
    let mut data = write_file(&schema, &[batch], WriterOptions::default());

    // Corrupt version byte (footer[25])
    let len = data.len();
    data[len - 7] = 99; // Invalid version

    let input = MemoryInput { data: data.clone() };
    match MosaicReader::new(input, data.len() as u64) {
        Err(e) => assert!(e.message().contains("unsupported version"), "got: {:?}", e),
        Ok(_) => panic!("expected error for corrupted version"),
    }
}

#[test]
fn test_corrupted_footer_offsets() {
    let schema = vec![field("a", DataType::Int32, false)];
    let batch = batch_of(
        schema.clone(),
        vec![int32_cells(vec![1, 2, 3])],
    )
    .unwrap();
    let mut data = write_file(&schema, &[batch], WriterOptions::default());

    // Corrupt schema_block_offset to point past file end
    let len = data.len();
    let footer_start = len - FOOTER_SIZE;
    // footer[8..16] = schema_block_offset (big-endian u64)
    let bad_offset = (len as u64 + 1000).to_be_bytes();
    data[footer_start + 8..footer_start + 16].copy_from_slice(&bad_offset);

    let input = MemoryInput { data: data.clone() };
    match MosaicReader::new(input, data.len() as u64) {
        Err(e) => assert_eq!(e.kind(), ErrorKind::InvalidData),
        Ok(_) => panic!("expected error for corrupted footer offsets"),
    }
}

#[test]
fn test_corrupted_compressed_data() {
    let schema = vec![field("a", DataType::Int64, false)];
    let vals: Vec<i64> = (0..10000).collect();
    let batch = batch_of(
        schema.clone(),
        vec![int64_cells(vals)],
    )
    .unwrap();
    let mut data = write_file(
        &schema,
        &[batch],
        WriterOptions {
            num_buckets: 1,
            ..Default::default()
        },
    );

    // Corrupt a large portion of the data section to guarantee hitting compressed payload
    let corrupt_start = 0;
    let corrupt_end = (data.len() - FOOTER_SIZE).min(data.len() / 2);
    for i in corrupt_start..corrupt_end {
        data[i] = 0xFF;
    }

    let input = MemoryInput { data: data.clone() };
    let reader = MosaicReader::new(input, data.len() as u64);
    // Corruption must surface as an error at open or at read time
    let failed = match reader {
        Err(_) => true,
        Ok(reader) => match reader.row_group_reader(0) {
            Err(_) => true,
            Ok(mut rg) => rg.read_columns().is_err(),
        },
    };
    assert!(failed, "corrupted data should cause an error");
}

#[test]
fn test_truncated_file() {
    let schema = vec![field("a", DataType::Int32, false)];
    let batch = batch_of(
        schema.clone(),
        vec![int32_cells(vec![1, 2, 3])],
    )
    .unwrap();
    let data = write_file(&schema, &[batch], WriterOptions::default());

    // Truncate to just the footer size + a bit
    let truncated = &data[..FOOTER_SIZE + 10];
    let input = MemoryInput {
        data: truncated.to_vec(),
    };
    assert!(
        MosaicReader::new(input, truncated.len() as u64).is_err(),
        "truncated file should fail to open"
    );
}

#[test]
fn test_zero_length_file() {
    let data: Vec<u8> = vec![];
    let input = MemoryInput { data: data.clone() };
    match MosaicReader::new(input, 0) {
        Err(e) => assert_eq!(e.kind(), ErrorKind::InvalidData),
        Ok(_) => panic!("expected error for zero-length file"),
    }
}

// ======================== Randomized Roundtrip Tests ========================

fn simple_hash(seed: u64, i: usize) -> u64 {
    let mut x = seed.wrapping_add(i as u64);
    x ^= x >> 33;
    x = x.wrapping_mul(0xff51afd7ed558ccd);
    x ^= x >> 33;
    x = x.wrapping_mul(0xc4ceb9fe1a85ec53);
    x ^= x >> 33;
    x
}

#[test]
fn test_randomized_int_patterns() {
    let schema = vec![
        field("a", DataType::Int32, true),
        field("b", DataType::Int64, true),
    ];

    for seed in 0..10u64 {
        let num_rows = 10_000 + (seed as usize * 5000);
        let a_vals: Vec<Option<i32>> = (0..num_rows)
            .map(|i| {
                let h = simple_hash(seed, i);
                if h % 7 == 0 {
                    None
                } else {
                    Some(h as i32)
                }
            })
            .collect();
        let b_vals: Vec<Option<i64>> = (0..num_rows)
            .map(|i| {
                let h = simple_hash(seed.wrapping_add(1), i);
                if h % 11 == 0 {
                    None
                } else {
                    Some(h as i64)
                }
            })
            .collect();

        let batch = batch_of(
            schema.clone(),
            vec![
                int32_cells(a_vals.clone()),
                int64_cells(b_vals.clone()),
            ],
        )
        .unwrap();

        let data = write_file(
            &schema,
            &[batch.clone()],
            WriterOptions {
                num_buckets: 2 + seed as usize % 10,
                row_group_max_size: 1024 * 1024,
                ..Default::default()
            },
        );

        let result = read_all(&data);
        let total_rows: usize = result.iter().map(|b| b.num_rows).sum();
        assert_eq!(total_rows, num_rows, "seed={seed}");
    }
}

#[test]
fn test_randomized_string_patterns() {
    let schema = vec![
        field("s", DataType::Utf8, true),
        field("id", DataType::Int32, false),
    ];

    for seed in 0..5u64 {
        let num_rows = 20_000;
        let str_vals: Vec<Option<String>> = (0..num_rows)
            .map(|i| {
                let h = simple_hash(seed, i);
                if h % 5 == 0 {
                    None
                } else {
                    let len = (h % 200) as usize;
                    Some(
                        (0..len)
                            .map(|j| {
                                let c = simple_hash(seed + 100, i * 200 + j) % 26;
                                (b'a' + c as u8) as char
                            })
                            .collect(),
                    )
                }
            })
            .collect();
        let str_refs: Vec<Option<&str>> = str_vals.iter().map(|s| s.as_deref()).collect();
        let ids: Vec<i32> = (0..num_rows as i32).collect();

        let batch = batch_of(
            schema.clone(),
            vec![
                string_cells(str_refs),
                int32_cells(ids),
            ],
        )
        .unwrap();

        let data = write_file(
            &schema,
            &[batch.clone()],
            WriterOptions {
                num_buckets: 3,
                row_group_max_size: 2 * 1024 * 1024,
                ..Default::default()
            },
        );

        let result = read_all(&data);
        let total_rows: usize = result.iter().map(|b| b.num_rows).sum();
        assert_eq!(total_rows, num_rows, "seed={seed}");
    }
}

// ======================== Encoding Boundary Tests ========================

#[test]
fn test_dict_exactly_255_entries() {
    let schema = vec![field("v", DataType::Int32, false)];

    // Exactly 255 distinct values (max dict entries)
    let vals: Vec<i32> = (0..10_000).map(|i| (i % 255) as i32).collect();
    let batch = batch_of(
        schema.clone(),
        vec![int32_cells(vals.clone())],
    )
    .unwrap();

    let data = write_file(
        &schema,
        &[batch.clone()],
        WriterOptions {
            num_buckets: 1,
            ..Default::default()
        },
    );
    let result = read_all(&data);
    let out_vals: Vec<i32> = result
        .iter()
        .flat_map(|b| {
            read_int32(&b.columns[0]).values()
        })
        .collect();
    assert_eq!(out_vals, vals);
}

#[test]
fn test_dict_256_entries_falls_back_to_plain() {
    let schema = vec![field("v", DataType::Int32, false)];

    // 256 distinct values (exceeds max dict entries of 255)
    let vals: Vec<i32> = (0..10_000).map(|i| (i % 256) as i32).collect();
    let batch = batch_of(
        schema.clone(),
        vec![int32_cells(vals.clone())],
    )
    .unwrap();

    let data = write_file(
        &schema,
        &[batch.clone()],
        WriterOptions {
            num_buckets: 1,
            ..Default::default()
        },
    );
    let result = read_all(&data);
    let out_vals: Vec<i32> = result
        .iter()
        .flat_map(|b| {
            read_int32(&b.columns[0]).values()
        })
        .collect();
    assert_eq!(out_vals, vals);
}

#[test]
fn test_single_distinct_value_const_encoding() {
    let schema = vec![
        field("int_const", DataType::Int64, false),
        field("str_const", DataType::Utf8, false),
    ];

    let num_rows = 100_000;
    let batch = batch_of(
        schema.clone(),
        vec![
            int64_cells(vec![999_999_999i64; num_rows]),
            string_cells(vec!["constant"; num_rows]),
        ],
    )
    .unwrap();

    let data = write_file(
        &schema,
        &[batch.clone()],
        WriterOptions {
            num_buckets: 1,
            ..Default::default()
        },
    );

    // Constant encoding should produce a very small file
    assert!(
        data.len() < 1024,
        "file size {} bytes is too large for constant data",
        data.len()
    );

    let result = read_all(&data);
    let total_rows: usize = result.iter().map(|b| b.num_rows).sum();
    assert_eq!(total_rows, num_rows);
}

#[test]
fn test_encoding_transition_across_row_groups() {
    let schema = vec![field("v", DataType::Int32, true)];

    // First batch: constant values (should get CONST encoding)
    let batch1 = batch_of(
        schema.clone(),
        vec![int32_cells(vec![Some(42); 50_000])],
    )
    .unwrap();

    // Second batch: high cardinality (should get PLAIN encoding)
    let vals: Vec<Option<i32>> = (0..50_000).map(|i| Some(i as i32)).collect();
    let batch2 = batch_of(
        schema.clone(),
        vec![int32_cells(vals)],
    )
    .unwrap();

    // Third batch: low cardinality (should get DICT encoding)
    let vals: Vec<Option<i32>> = (0..50_000).map(|i| Some((i % 5) as i32)).collect();
    let batch3 = batch_of(
        schema.clone(),
        vec![int32_cells(vals)],
    )
    .unwrap();

    let data = write_file(
        &schema,
        &[batch1.clone(), batch2.clone(), batch3.clone()],
        WriterOptions {
            num_buckets: 1,
            row_group_max_size: 128 * 1024,
            ..Default::default()
        },
    );

    let result = read_all(&data);
    let total_rows: usize = result.iter().map(|b| b.num_rows).sum();
    assert_eq!(total_rows, 150_000);
}

// ======================== Row Group Boundary Tests ========================

#[test]
fn test_row_group_split_preserves_data() {
    let schema = vec![
        field("id", DataType::Int64, false),
        field("data", DataType::Utf8, true),
    ];

    let num_rows = 100_000;
    let batch_size = 1000;
    let num_batches = num_rows / batch_size;

    let mut batches = Vec::new();
    for b in 0..num_batches {
        let start = (b * batch_size) as i64;
        let ids: Vec<i64> = (start..start + batch_size as i64).collect();
        let data_vals: Vec<Option<String>> = (0..batch_size)
            .map(|i| {
                let row = b * batch_size + i;
                if row % 3 == 0 {
                    None
                } else {
                    Some(format!("row_{:06}_padding_{}", row, "x".repeat(100)))
                }
            })
            .collect();
        let data_refs: Vec<Option<&str>> = data_vals.iter().map(|s| s.as_deref()).collect();
        let batch = batch_of(
            schema.clone(),
            vec![
                int64_cells(ids),
                string_cells(data_refs),
            ],
        )
        .unwrap();
        batches.push(batch);
    }

    // Write with small row group size; many small batches allow the writer to split
    let out = MemoryOutput::new();
    let mut writer = MosaicWriter::new(
        out,
        &schema,
        WriterOptions {
            num_buckets: 5,
            row_group_max_size: 64 * 1024, // 64KB
            ..Default::default()
        },
    )
    .unwrap();
    for batch in &batches {
        writer.write_batch(batch).unwrap();
    }
    writer.close().unwrap();
    let file_data = writer.output().buf.clone();

    let input = MemoryInput {
        data: file_data.clone(),
    };
    let reader = MosaicReader::new(input, file_data.len() as u64).unwrap();

    // Verify multiple row groups were created
    assert!(
        reader.num_row_groups() > 1,
        "expected multiple row groups, got {}",
        reader.num_row_groups()
    );

    // Verify all data reads back correctly
    let mut total_rows = 0;
    let mut last_id = -1i64;
    for rg in 0..reader.num_row_groups() {
        let mut rg_reader = reader.row_group_reader(rg).unwrap();
        let batch = rg_reader.read_columns().unwrap();
        let id_col = read_int64(&batch.columns[0]);

        // IDs should be consecutive
        for i in 0..batch.num_rows {
            let id = id_col.value(i);
            assert_eq!(id, last_id + 1, "row group {rg}, row {i}");
            last_id = id;
        }
        total_rows += batch.num_rows;
    }
    assert_eq!(total_rows, num_rows);
}

#[test]
fn test_empty_row_groups_not_created() {
    let schema = vec![field("a", DataType::Int32, false)];
    let batch = batch_of(
        schema.clone(),
        vec![int32_cells(vec![1, 2, 3])],
    )
    .unwrap();

    let file_data = write_file(
        &schema,
        &[batch],
        WriterOptions {
            num_buckets: 1,
            row_group_max_size: 1024 * 1024 * 1024,
            ..Default::default()
        },
    );

    let input = MemoryInput {
        data: file_data.clone(),
    };
    let reader = MosaicReader::new(input, file_data.len() as u64).unwrap();
    assert_eq!(reader.num_row_groups(), 1);
}

// ======================== Statistics Validation Tests ========================

#[test]
fn test_stats_min_max_correctness() {
    let schema = vec![field("v", DataType::Int64, true)];

    // Create data with known min/max per row group
    let batches: Vec<RecordBatch> = vec![
        batch_of(
            schema.clone(),
            vec![int64_cells(vec![
                Some(100),
                Some(200),
                Some(300),
                None,
                Some(50),
            ])],
        )
        .unwrap(),
        batch_of(
            schema.clone(),
            vec![int64_cells(vec![
                Some(-100),
                None,
                Some(0),
                Some(1000),
                Some(500),
            ])],
        )
        .unwrap(),
    ];

    let out = MemoryOutput::new();
    let mut writer = MosaicWriter::new(
        out,
        &schema,
        WriterOptions {
            num_buckets: 1,
            row_group_max_size: 32, // Force each batch to be its own row group
            stats_columns: vec![0],
            ..Default::default()
        },
    )
    .unwrap();
    for batch in &batches {
        writer.write_batch(batch).unwrap();
    }
    writer.close().unwrap();

    let data = writer.output().buf.clone();
    let input = MemoryInput { data: data.clone() };
    let reader = MosaicReader::new(input, data.len() as u64).unwrap();

    // Should have stats for each row group
    for rg in 0..reader.num_row_groups() {
        let stats = reader.row_group_stats(rg).unwrap();
        // Stats should exist (we enabled them for column 0)
        assert!(!stats.is_empty(), "rg={rg}: expected stats");
    }
}

#[test]
fn test_stats_with_all_null_row_group() {
    let schema = vec![field("v", DataType::Int64, true)];

    let batch = batch_of(
        schema.clone(),
        vec![int64_cells(vec![None; 1000])],
    )
    .unwrap();

    let out = MemoryOutput::new();
    let mut writer = MosaicWriter::new(
        out,
        &schema,
        WriterOptions {
            num_buckets: 1,
            stats_columns: vec![0],
            ..Default::default()
        },
    )
    .unwrap();
    writer.write_batch(&batch).unwrap();
    writer.close().unwrap();

    let data = writer.output().buf.clone();
    let input = MemoryInput { data: data.clone() };
    let reader = MosaicReader::new(input, data.len() as u64).unwrap();

    let stats = reader.row_group_stats(0).unwrap();
    assert!(!stats.is_empty());
}

// ======================== File Format Invariant Tests ========================

#[test]
fn test_file_starts_with_data_ends_with_metadata() {
    let schema = vec![
        field("a", DataType::Int64, false),
        field("b", DataType::Utf8, true),
    ];
    let batch = batch_of(
        schema.clone(),
        vec![
            int64_cells(vec![1, 2, 3]),
            string_cells(vec![Some("x"), None, Some("z")]),
        ],
    )
    .unwrap();

    let data = write_file(&schema, &[batch], WriterOptions::default());

    // File must end with magic bytes MOSA
    assert_eq!(&data[data.len() - 4..], b"MOSA");

    // Footer is 32 bytes
    assert!(data.len() >= FOOTER_SIZE);

    // Version byte
    assert_eq!(data[data.len() - 7], VERSION);
}

#[test]
fn test_num_buckets_capped_by_column_count() {
    let schema = vec![
        field("a", DataType::Int32, false),
        field("b", DataType::Int32, false),
    ];
    let batch = batch_of(
        schema.clone(),
        vec![
            int32_cells(vec![1]),
            int32_cells(vec![2]),
        ],
    )
    .unwrap();

    // Request 1000 buckets but only 2 columns
    let data = write_file(
        &schema,
        &[batch],
        WriterOptions {
            num_buckets: 1000,
            ..Default::default()
        },
    );

    let input = MemoryInput { data: data.clone() };
    let reader = MosaicReader::new(input, data.len() as u64).unwrap();
    assert_eq!(reader.schema().num_buckets, 2);
}

#[test]
fn test_writer_rejects_column_count_mismatch() {
    let schema = vec![
        field("a", DataType::Int32, false),
        field("b", DataType::Int32, false),
    ];
    let wrong_schema = vec![field("a", DataType::Int32, false)];

    let out = MemoryOutput::new();
    let mut writer = MosaicWriter::new(out, &schema, WriterOptions::default()).unwrap();

    let batch = batch_of(
        wrong_schema,
        vec![int32_cells(vec![1])],
    )
    .unwrap();

    let err = writer.write_batch(&batch).unwrap_err();
    assert_eq!(err.kind(), ErrorKind::InvalidInput);
    assert!(err.message().contains("column count mismatch"));
}

#[test]
fn test_writer_rejects_write_after_close() {
    let schema = vec![field("a", DataType::Int32, false)];
    let out = MemoryOutput::new();
    let mut writer = MosaicWriter::new(out, &schema, WriterOptions::default()).unwrap();

    let batch = batch_of(
        schema.clone(),
        vec![int32_cells(vec![1])],
    )
    .unwrap();

    writer.write_batch(&batch).unwrap();
    writer.close().unwrap();

    let err = writer.write_batch(&batch).unwrap_err();
    assert_eq!(err.kind(), ErrorKind::InvalidInput);
}

// ======================== Projection Correctness Tests ========================

#[test]
fn test_projection_returns_correct_columns() {
    let schema = vec![
        field("a", DataType::Int32, false),
        field("b", DataType::Utf8, true),
        field("c", DataType::Float64, false),
        field("d", DataType::Int64, true),
    ];

    let num_rows = 10_000;
    let batch = batch_of(
        schema.clone(),
        vec![
            int32_cells((0..num_rows as i32).collect::<Vec<_>>()),
            string_cells(
                (0..num_rows)
                    .map(|i| if i % 3 == 0 { None } else { Some("val") })
                    .collect::<Vec<_>>(),
            ),
            float64_cells(
                (0..num_rows).map(|i| i as f64).collect::<Vec<_>>(),
            ),
            int64_cells(
                (0..num_rows)
                    .map(|i| if i % 2 == 0 { Some(i as i64) } else { None })
                    .collect::<Vec<Option<i64>>>(),
            ),
        ],
    )
    .unwrap();

    let file_data = write_file(
        &schema,
        &[batch.clone()],
        WriterOptions {
            num_buckets: 4,
            ..Default::default()
        },
    );

    let input = MemoryInput {
        data: file_data.clone(),
    };
    let reader = MosaicReader::new(input, file_data.len() as u64).unwrap();

    // Project only columns [0, 2] (a, c)
    for rg in 0..reader.num_row_groups() {
        let mut rg_reader = reader.row_group_reader_projected(rg, &[0, 2]).unwrap();
        let result = rg_reader.read_columns().unwrap();
        assert_eq!(result.columns.len(), 2);

        // Verify column names
        let fields: Vec<&str> = result.fields.iter().map(|f| f.name.as_str()).collect();
        assert!(fields.contains(&"a"));
        assert!(fields.contains(&"c"));
    }
}

#[test]
fn test_projection_out_of_bounds_error() {
    let schema = vec![
        field("a", DataType::Int32, false),
        field("b", DataType::Int32, false),
    ];
    let batch = batch_of(
        schema.clone(),
        vec![
            int32_cells(vec![1]),
            int32_cells(vec![2]),
        ],
    )
    .unwrap();

    let file_data = write_file(&schema, &[batch], WriterOptions::default());
    let input = MemoryInput {
        data: file_data.clone(),
    };
    let reader = MosaicReader::new(input, file_data.len() as u64).unwrap();

    match reader.row_group_reader_projected(0, &[0, 99]) {
        Err(e) => assert_eq!(e.kind(), ErrorKind::InvalidInput),
        Ok(_) => panic!("expected error for out-of-bounds projection"),
    }
}

// ======================== Compression Tests ========================

#[test]
fn test_zstd_compressed_smaller_than_uncompressed() {
    let schema = vec![field("v", DataType::Int64, false)];

    let num_rows = 100_000;
    // Highly compressible: sequential values
    let vals: Vec<i64> = (0..num_rows as i64).collect();
    let batch = batch_of(
        schema.clone(),
        vec![int64_cells(vals)],
    )
    .unwrap();

    let data_zstd = write_file(
        &schema,
        &[batch.clone()],
        WriterOptions {
            num_buckets: 1,
            compression: COMPRESSION_ZSTD,
            ..Default::default()
        },
    );

    let data_none = write_file(
        &schema,
        &[batch],
        WriterOptions {
            num_buckets: 1,
            compression: COMPRESSION_NONE,
            ..Default::default()
        },
    );

    assert!(
        data_zstd.len() < data_none.len(),
        "zstd={} should be smaller than none={}",
        data_zstd.len(),
        data_none.len()
    );
}

#[test]
fn test_incompressible_data_still_works() {
    let schema = vec![field("v", DataType::Binary, false)];

    // Random-ish binary data that won't compress well
    let num_rows = 10_000;
    let bin_vals: Vec<Vec<u8>> = (0..num_rows)
        .map(|i| (0..64).map(|j| simple_hash(42, i * 64 + j) as u8).collect())
        .collect();
    let bin_refs: Vec<&[u8]> = bin_vals.iter().map(|v| v.as_slice()).collect();

    let batch = batch_of(
        schema.clone(),
        vec![binary_cells(bin_refs)],
    )
    .unwrap();

    let data = write_file(
        &schema,
        &[batch.clone()],
        WriterOptions {
            num_buckets: 1,
            ..Default::default()
        },
    );

    let result = read_all(&data);
    let total_rows: usize = result.iter().map(|b| b.num_rows).sum();
    assert_eq!(total_rows, num_rows);
}

// ======================== Schema Tests ========================

#[test]
fn test_schema_roundtrip_preserves_types_and_nullability() {
    let schema = vec![
        field("bool", DataType::Boolean, false),
        field("i8", DataType::Int8, true),
        field("i16", DataType::Int16, false),
        field("i32", DataType::Int32, true),
        field("i64", DataType::Int64, false),
        field("f32", DataType::Float32, true),
        field("f64", DataType::Float64, false),
        field("date", DataType::Date32, true),
        field("time", DataType::Time32(TimeUnit::Millisecond), true),
        field("str", DataType::Utf8, true),
        field("bin", DataType::Binary, false),
        field("dec_small", DataType::Decimal128(10, 3), true),
        field(
            "ts_ms",
            DataType::Timestamp(TimeUnit::Millisecond, false),
            true,
        ),
        zoned_field("ts_us_tz", TimeUnit::Microsecond, "UTC", true),
    ];

    // Write minimal data
    let batch = batch_of(
        schema.clone(),
        vec![
            boolean_cells(vec![true]),
            int8_cells(vec![Some(1i8)]),
            int16_cells(vec![1i16]),
            int32_cells(vec![Some(1i32)]),
            int64_cells(vec![1i64]),
            float32_cells(vec![Some(1.0f32)]),
            float64_cells(vec![1.0f64]),
            date_cells(vec![Some(19000)]),
            time_cells(vec![Some(3600000)]),
            string_cells(vec![Some("hello")]),
            binary_cells(vec![&[1u8, 2, 3] as &[u8]]),
            decimal_cells(vec![Some(12345i128)]),
            timestamp_millis_cells(vec![Some(
                1700000000000i64,
            )]),
            timestamp_micros_cells(vec![Some(1700000000000000i64)]),
        ],
    )
    .unwrap();

    let file_data = write_file(
        &schema,
        &[batch],
        WriterOptions {
            num_buckets: 5,
            ..Default::default()
        },
    );

    let input = MemoryInput {
        data: file_data.clone(),
    };
    let reader = MosaicReader::new(input, file_data.len() as u64).unwrap();
    let mosaic_schema = reader.schema();

    // Verify all columns preserved
    assert_eq!(mosaic_schema.columns.len(), 14);

    // Verify names and types
    assert_eq!(mosaic_schema.columns[0].name, "bool");
    assert_eq!(mosaic_schema.columns[0].data_type, DataType::Boolean);
    assert!(!mosaic_schema.columns[0].nullable);

    assert_eq!(mosaic_schema.columns[1].name, "i8");
    assert_eq!(mosaic_schema.columns[1].data_type, DataType::Int8);
    assert!(mosaic_schema.columns[1].nullable);

    assert_eq!(mosaic_schema.columns[9].name, "str");
    assert_eq!(mosaic_schema.columns[9].data_type, DataType::Utf8);

    assert_eq!(mosaic_schema.columns[10].name, "bin");
    assert_eq!(mosaic_schema.columns[10].data_type, DataType::Binary);
    assert!(!mosaic_schema.columns[10].nullable);
}

#[test]
fn test_schema_rejects_duplicate_column_names() {
    let schema = vec![
        field("dup", DataType::Int32, false),
        field("dup", DataType::Int64, false),
    ];

    let out = MemoryOutput::new();
    let result = MosaicWriter::new(out, &schema, WriterOptions::default());
    assert!(result.is_err());
}

// ======================== Numeric Limits ========================

#[test]
fn test_numeric_limits_roundtrip() {
    let schema = vec![
        field("i8", DataType::Int8, false),
        field("i16", DataType::Int16, false),
        field("i32", DataType::Int32, false),
        field("i64", DataType::Int64, false),
        field("f32", DataType::Float32, false),
        field("f64", DataType::Float64, false),
    ];

    let batch = batch_of(
        schema.clone(),
        vec![
            int8_cells(vec![i8::MIN, -100, -1, 0, 1, 100, i8::MAX]),
            int16_cells(vec![
                i16::MIN,
                -1000,
                -1,
                0,
                1,
                1000,
                i16::MAX,
            ]),
            int32_cells(vec![
                i32::MIN,
                -100_000,
                -1,
                0,
                1,
                100_000,
                i32::MAX,
            ]),
            int64_cells(vec![
                i64::MIN,
                -1_000_000_000,
                -1,
                0,
                1,
                1_000_000_000,
                i64::MAX,
            ]),
            float32_cells(vec![
                f32::MIN,
                -1.0,
                -f32::EPSILON,
                0.0,
                f32::EPSILON,
                1.0,
                f32::MAX,
            ]),
            float64_cells(vec![
                f64::MIN,
                -1.0,
                -f64::EPSILON,
                0.0,
                f64::EPSILON,
                1.0,
                f64::MAX,
            ]),
        ],
    )
    .unwrap();

    let data = write_file(
        &schema,
        &[batch.clone()],
        WriterOptions {
            num_buckets: 3,
            ..Default::default()
        },
    );
    let result = read_all(&data);
    assert_eq!(result.len(), 1);
    assert_eq!(result[0], batch);
}

// ======================== Multiple Writers Compatibility ========================

#[test]
fn test_no_compression_vs_zstd_same_data() {
    let schema = vec![
        field("id", DataType::Int64, false),
        field("val", DataType::Utf8, true),
    ];

    let num_rows = 50_000;
    let ids: Vec<i64> = (0..num_rows as i64).collect();
    let vals: Vec<Option<&str>> = (0..num_rows)
        .map(|i| if i % 4 == 0 { None } else { Some("test_value") })
        .collect();

    let batch = batch_of(
        schema.clone(),
        vec![
            int64_cells(ids),
            string_cells(vals),
        ],
    )
    .unwrap();

    let data_none = write_file(
        &schema,
        &[batch.clone()],
        WriterOptions {
            num_buckets: 5,
            compression: COMPRESSION_NONE,
            ..Default::default()
        },
    );

    let data_zstd = write_file(
        &schema,
        &[batch.clone()],
        WriterOptions {
            num_buckets: 5,
            compression: COMPRESSION_ZSTD,
            ..Default::default()
        },
    );

    let result_none = read_all(&data_none);
    let result_zstd = read_all(&data_zstd);

    // Both should produce the same logical data
    let rows_none: usize = result_none.iter().map(|b| b.num_rows).sum();
    let rows_zstd: usize = result_zstd.iter().map(|b| b.num_rows).sum();
    assert_eq!(rows_none, num_rows);
    assert_eq!(rows_zstd, num_rows);
}

// ======================== Empty Batch / Single Row Edge Cases ========================

#[test]
fn test_single_row_roundtrip() {
    let schema = vec![
        field("id", DataType::Int64, false),
        field("name", DataType::Utf8, true),
        field("flag", DataType::Boolean, true),
    ];

    let batch = batch_of(
        schema.clone(),
        vec![
            int64_cells(vec![42]),
            string_cells(vec![Some("only_one")]),
            boolean_cells(vec![Some(true)]),
        ],
    )
    .unwrap();

    let data = write_file(&schema, &[batch.clone()], WriterOptions::default());
    let result = read_all(&data);
    assert_eq!(result.len(), 1);
    assert_eq!(result[0], batch);
}

#[test]
fn test_single_row_all_null() {
    let schema = vec![
        field("a", DataType::Int32, true),
        field("b", DataType::Utf8, true),
        field("c", DataType::Float64, true),
    ];

    let batch = batch_of(
        schema.clone(),
        vec![
            int32_cells(vec![None as Option<i32>]),
            string_cells(vec![None as Option<&str>]),
            float64_cells(vec![None as Option<f64>]),
        ],
    )
    .unwrap();

    let data = write_file(&schema, &[batch.clone()], WriterOptions::default());
    let result = read_all(&data);
    assert_eq!(result.len(), 1);
    assert_eq!(result[0].num_rows, 1);
    assert_eq!(null_count(&result[0].columns[0]), 1);
    assert_eq!(null_count(&result[0].columns[1]), 1);
    assert_eq!(null_count(&result[0].columns[2]), 1);
}

#[test]
fn test_empty_batch_skipped() {
    let schema = vec![field("x", DataType::Int32, false)];

    let empty_batch = batch_of(
        schema.clone(),
        vec![int32_cells(Vec::<i32>::new())],
    )
    .unwrap();

    let real_batch = batch_of(
        schema.clone(),
        vec![int32_cells(vec![1, 2, 3])],
    )
    .unwrap();

    let data = write_file(
        &schema,
        &[empty_batch, real_batch],
        WriterOptions::default(),
    );
    let result = read_all(&data);
    let total_rows: usize = result.iter().map(|b| b.num_rows).sum();
    assert_eq!(total_rows, 3);
}

// ======================== ALL_NULL Encoding Tests ========================

#[test]
fn test_all_null_column_encoding() {
    let schema = vec![
        field("id", DataType::Int64, false),
        field("nullable_int", DataType::Int32, true),
        field("nullable_str", DataType::Utf8, true),
    ];

    let num_rows = 10_000;
    let ids: Vec<i64> = (0..num_rows as i64).collect();
    let nulls_i32: Vec<Option<i32>> = vec![None; num_rows];
    let nulls_str: Vec<Option<&str>> = vec![None; num_rows];

    let batch = batch_of(
        schema.clone(),
        vec![
            int64_cells(ids),
            int32_cells(nulls_i32),
            string_cells(nulls_str),
        ],
    )
    .unwrap();

    let data = write_file(&schema, &[batch], WriterOptions::default());
    let result = read_all(&data);
    assert_eq!(result[0].num_rows, num_rows);
    assert_eq!(null_count(&result[0].columns[1]), num_rows);
    assert_eq!(null_count(&result[0].columns[2]), num_rows);
}

#[test]
fn test_all_null_to_data_across_row_groups() {
    let schema = vec![
        field("id", DataType::Int64, false),
        field("val", DataType::Int32, true),
    ];

    let batch_size = 1000;

    // First batch: all nulls
    let batch_null = batch_of(
        schema.clone(),
        vec![
            int64_cells((0..batch_size as i64).collect::<Vec<_>>()),
            int32_cells(vec![None as Option<i32>; batch_size]),
        ],
    )
    .unwrap();

    // Second batch: all data
    let batch_data = batch_of(
        schema.clone(),
        vec![
            int64_cells(
                (batch_size as i64..2 * batch_size as i64).collect::<Vec<_>>(),
            ),
            int32_cells((0..batch_size as i32).collect::<Vec<_>>()),
        ],
    )
    .unwrap();

    // Write with small row group size to get separate row groups
    let out = MemoryOutput::new();
    let mut writer = MosaicWriter::new(
        out,
        &schema,
        WriterOptions {
            num_buckets: 1,
            row_group_max_size: 1024,
            ..Default::default()
        },
    )
    .unwrap();
    writer.write_batch(&batch_null).unwrap();
    writer.write_batch(&batch_data).unwrap();
    writer.close().unwrap();
    let file_data = writer.output().buf.clone();

    let result = read_all(&file_data);
    let total_rows: usize = result.iter().map(|b| b.num_rows).sum();
    assert_eq!(total_rows, 2 * batch_size);

    // Verify first row group is all nulls, second has data
    let first_nulls: usize = result
        .iter()
        .take(1)
        .map(|b| null_count(&b.columns[1]))
        .sum();
    assert!(first_nulls > 0);
    let last_batch = &result[result.len() - 1];
    let val_col = read_int32(&last_batch.columns[1]);
    assert!(val_col.null_count() < val_col.len());
}

#[test]
fn test_all_null_boolean_column() {
    let schema = vec![
        field("id", DataType::Int32, false),
        field("flag", DataType::Boolean, true),
    ];

    let num_rows = 5000;
    let batch = batch_of(
        schema.clone(),
        vec![
            int32_cells((0..num_rows as i32).collect::<Vec<_>>()),
            boolean_cells(vec![None as Option<bool>; num_rows]),
        ],
    )
    .unwrap();

    let data = write_file(&schema, &[batch], WriterOptions::default());
    let result = read_all(&data);
    assert_eq!(null_count(&result[0].columns[1]), num_rows);
}

// ======================== Decimal128 Tests ========================

#[test]
fn test_decimal128_compact_precision() {
    // precision <= 18: uses compact i64 encoding
    let schema = vec![
        field("dec_p10", DataType::Decimal128(10, 3), false),
        field("dec_p18", DataType::Decimal128(18, 6), true),
    ];

    let num_rows = 10_000;
    let vals_p10: Vec<i128> = (0..num_rows)
        .map(|i| ((i as i128) - 5000) * 1_000)
        .collect();
    let vals_p18: Vec<Option<i128>> = (0..num_rows)
        .map(|i| {
            if i % 7 == 0 {
                None
            } else {
                Some((i as i128 - 5000) * 1_000_000)
            }
        })
        .collect();

    let batch = batch_of(
        schema.clone(),
        vec![
            decimal_cells(vals_p10.clone()),
            decimal_cells(vals_p18.clone()),
        ],
    )
    .unwrap();

    let data = write_file(&schema, &[batch.clone()], WriterOptions::default());
    let result = read_all(&data);
    assert_eq!(result.len(), 1);
    let col0 = read_decimal(&result[0].columns[0]);
    assert_eq!(result[0].fields[0].data_type, DataType::Decimal128(10, 3));
    for i in 0..num_rows {
        assert_eq!(col0.value(i), vals_p10[i]);
    }

    let col1 = read_decimal(&result[0].columns[1]);
    assert_eq!(result[0].fields[1].data_type, DataType::Decimal128(18, 6));
    for i in 0..num_rows {
        match vals_p18[i] {
            None => assert!(col1.is_null(i)),
            Some(v) => assert_eq!(col1.value(i), v),
        }
    }
}

#[test]
fn test_decimal128_large_precision() {
    // precision > 18: uses full 16-byte i128 encoding
    let schema = vec![
        field("dec_p20", DataType::Decimal128(20, 5), false),
        field("dec_p38", DataType::Decimal128(38, 10), true),
    ];

    let num_rows = 5_000;
    // Values that exceed i64 range
    let vals_p20: Vec<i128> = (0..num_rows)
        .map(|i| {
            let base: i128 = 10_000_000_000_000_000_000; // exceeds i64::MAX
            base + i as i128 * 100_000
        })
        .collect();
    let vals_p38: Vec<Option<i128>> = (0..num_rows)
        .map(|i| {
            if i % 5 == 0 {
                None
            } else {
                let base: i128 = 100_000_000_000_000_000_000_000_000_000; // very large
                Some(base + i as i128 * 10_000_000_000)
            }
        })
        .collect();

    let batch = batch_of(
        schema.clone(),
        vec![
            decimal_cells(vals_p20.clone()),
            decimal_cells(vals_p38.clone()),
        ],
    )
    .unwrap();

    let data = write_file(&schema, &[batch], WriterOptions::default());
    let result = read_all(&data);
    assert_eq!(result.len(), 1);

    let col0 = read_decimal(&result[0].columns[0]);
    assert_eq!(result[0].fields[0].data_type, DataType::Decimal128(20, 5));
    for i in 0..num_rows {
        assert_eq!(col0.value(i), vals_p20[i]);
    }

    let col1 = read_decimal(&result[0].columns[1]);
    assert_eq!(result[0].fields[1].data_type, DataType::Decimal128(38, 10));
    for i in 0..num_rows {
        match vals_p38[i] {
            None => assert!(col1.is_null(i)),
            Some(v) => assert_eq!(col1.value(i), v),
        }
    }
}

#[test]
fn test_decimal128_extreme_values() {
    let schema = vec![field("dec", DataType::Decimal128(38, 0), true)];

    // i128 extremes within Decimal128(38,0) range
    let max_decimal38: i128 = 99_999_999_999_999_999_999_999_999_999_999_999_999;
    let min_decimal38: i128 = -max_decimal38;

    let vals = vec![
        Some(0i128),
        Some(1),
        Some(-1),
        Some(max_decimal38),
        Some(min_decimal38),
        None,
        Some(i64::MAX as i128),
        Some(i64::MIN as i128),
        Some(i64::MAX as i128 + 1),
        Some(i64::MIN as i128 - 1),
    ];

    let batch = batch_of(
        schema.clone(),
        vec![decimal_cells(vals.clone())],
    )
    .unwrap();

    let data = write_file(&schema, &[batch], WriterOptions::default());
    let result = read_all(&data);
    let col = read_decimal(&result[0].columns[0]);

    for (i, v) in vals.iter().enumerate() {
        match v {
            None => assert!(col.is_null(i)),
            Some(expected) => assert_eq!(col.value(i), *expected, "mismatch at row {}", i),
        }
    }
}

// ======================== TimestampNanos (Struct) Tests ========================

#[test]
fn test_timestamp_nanos_basic_roundtrip() {
    let schema = vec![field("ts", DataType::LegacyTimestampNanos, true)];

    let num_rows = 10_000;
    let millis_vals: Vec<Option<i64>> = (0..num_rows)
        .map(|i| {
            if i % 11 == 0 {
                None
            } else {
                Some(1_700_000_000_000i64 + i as i64)
            }
        })
        .collect();
    let nanos_vals: Vec<Option<i32>> = (0..num_rows)
        .map(|i| {
            if i % 11 == 0 {
                None
            } else {
                Some((i % 1_000_000) as i32)
            }
        })
        .collect();

    let ts_struct = legacy_nanos_cells(millis_vals.clone(), nanos_vals.clone());

    let batch = batch_of(schema.clone(), vec![ts_struct]).unwrap();

    let data = write_file(&schema, &[batch], WriterOptions::default());
    let result = read_all(&data);
    assert_eq!(result[0].num_rows, num_rows);

    let col = read_legacy_nanos(&result[0].columns[0]);


    for i in 0..num_rows {
        if i % 11 == 0 {
            assert!(col.is_null(i), "expected null at row {}", i);
        } else {
            assert!(!col.is_null(i));
            assert_eq!(col.value(i).0, 1_700_000_000_000i64 + i as i64);
            assert_eq!(col.value(i).1, (i % 1_000_000) as i32);
        }
    }
}

#[test]
fn test_timestamp_nanos_extreme_values() {
    let schema = vec![field("ts", DataType::LegacyTimestampNanos, false)];

    // Extreme millisecond values and nanos boundary values
    let millis_data: Vec<i64> = vec![
        0,
        i64::MAX,
        i64::MIN,
        1_700_000_000_000,
        -1_700_000_000_000,
        1,
        -1,
    ];
    let nanos_data: Vec<i32> = vec![
        0, 999_999, // max valid nanos_of_milli
        0, 500_000, 999_999, 1, 0,
    ];

    let ts_struct = legacy_nanos_cells(
        millis_data.iter().copied().map(Some).collect(),
        nanos_data.iter().copied().map(Some).collect(),
    );

    let batch = batch_of(schema.clone(), vec![ts_struct]).unwrap();

    let data = write_file(&schema, &[batch], WriterOptions::default());
    let result = read_all(&data);
    let col = read_legacy_nanos(&result[0].columns[0]);


    for i in 0..millis_data.len() {
        assert_eq!(
            col.value(i).0,
            millis_data[i],
            "millis mismatch at {}",
            i
        );
        assert_eq!(col.value(i).1, nanos_data[i], "nanos mismatch at {}", i);
    }
}

#[test]
fn test_timestamp_nanos_all_null() {
    let schema = vec![field("ts", DataType::LegacyTimestampNanos, true)];

    let num_rows = 1000;
    let millis_vals: Vec<Option<i64>> = vec![None; num_rows];
    let nanos_vals: Vec<Option<i32>> = vec![None; num_rows];

    let ts_struct = legacy_nanos_cells(millis_vals, nanos_vals);

    let batch = batch_of(schema.clone(), vec![ts_struct]).unwrap();

    let data = write_file(&schema, &[batch], WriterOptions::default());
    let result = read_all(&data);
    assert_eq!(null_count(&result[0].columns[0]), num_rows);
}

// ======================== Boolean Boundary Tests ========================

#[test]
fn robustness_test_test_boolean_all_true() {
    let schema = vec![field("b", DataType::Boolean, false)];
    let num_rows = 10_000;
    let batch = batch_of(
        schema.clone(),
        vec![boolean_cells(vec![true; num_rows])],
    )
    .unwrap();

    let data = write_file(&schema, &[batch.clone()], WriterOptions::default());
    let result = read_all(&data);
    let col = read_boolean(&result[0].columns[0]);
    for i in 0..num_rows {
        assert!(col.value(i), "expected true at row {}", i);
    }
}

#[test]
fn test_boolean_all_false() {
    let schema = vec![field("b", DataType::Boolean, false)];
    let num_rows = 10_000;
    let batch = batch_of(
        schema.clone(),
        vec![boolean_cells(vec![false; num_rows])],
    )
    .unwrap();

    let data = write_file(&schema, &[batch.clone()], WriterOptions::default());
    let result = read_all(&data);
    let col = read_boolean(&result[0].columns[0]);
    for i in 0..num_rows {
        assert!(!col.value(i), "expected false at row {}", i);
    }
}

#[test]
fn test_boolean_alternating_with_nulls() {
    let schema = vec![field("b", DataType::Boolean, true)];
    let num_rows = 10_000;

    // Pattern: true, false, null, true, false, null, ...
    let vals: Vec<Option<bool>> = (0..num_rows)
        .map(|i| match i % 3 {
            0 => Some(true),
            1 => Some(false),
            _ => None,
        })
        .collect();

    let batch = batch_of(
        schema.clone(),
        vec![boolean_cells(vals.clone())],
    )
    .unwrap();

    let data = write_file(&schema, &[batch], WriterOptions::default());
    let result = read_all(&data);
    let col = read_boolean(&result[0].columns[0]);

    for i in 0..num_rows {
        match vals[i] {
            None => assert!(col.is_null(i), "expected null at {}", i),
            Some(v) => {
                assert!(!col.is_null(i), "unexpected null at {}", i);
                assert_eq!(col.value(i), v, "value mismatch at {}", i);
            }
        }
    }
}

#[test]
fn test_boolean_byte_boundary_alignment() {
    let schema = vec![field("b", DataType::Boolean, true)];

    // Test sizes that exercise byte boundaries: 7, 8, 9, 15, 16, 17, 63, 64, 65
    for num_rows in [
        7, 8, 9, 15, 16, 17, 63, 64, 65, 127, 128, 129, 255, 256, 257,
    ] {
        let vals: Vec<Option<bool>> = (0..num_rows)
            .map(|i| if i % 5 == 0 { None } else { Some(i % 2 == 0) })
            .collect();

        let batch = batch_of(
            schema.clone(),
            vec![boolean_cells(vals.clone())],
        )
        .unwrap();

        let data = write_file(&schema, &[batch], WriterOptions::default());
        let result = read_all(&data);
        let col = read_boolean(&result[0].columns[0]);

        assert_eq!(
            col.len(),
            num_rows,
            "wrong length for num_rows={}",
            num_rows
        );
        for i in 0..num_rows {
            match vals[i] {
                None => assert!(col.is_null(i), "expected null at {} (rows={})", i, num_rows),
                Some(v) => assert_eq!(col.value(i), v, "mismatch at {} (rows={})", i, num_rows),
            }
        }
    }
}

#[test]
fn test_boolean_sparse_nulls() {
    // Mostly data, very few nulls — tests that null bitmap is correct at sparse positions
    let schema = vec![field("b", DataType::Boolean, true)];
    let num_rows = 10_000;

    let vals: Vec<Option<bool>> = (0..num_rows)
        .map(|i| {
            // Null at positions that are prime-ish to avoid alignment
            if i == 7 || i == 13 || i == 97 || i == 1023 || i == 4999 || i == 9999 {
                None
            } else {
                Some(simple_hash(99, i) % 2 == 0)
            }
        })
        .collect();

    let batch = batch_of(
        schema.clone(),
        vec![boolean_cells(vals.clone())],
    )
    .unwrap();

    let data = write_file(&schema, &[batch], WriterOptions::default());
    let result = read_all(&data);
    let col = read_boolean(&result[0].columns[0]);

    for i in 0..num_rows {
        match vals[i] {
            None => assert!(col.is_null(i), "expected null at {}", i),
            Some(v) => {
                assert!(!col.is_null(i), "unexpected null at {}", i);
                assert_eq!(col.value(i), v, "mismatch at {}", i);
            }
        }
    }
}

#[test]
fn test_boolean_dense_nulls() {
    // Mostly nulls, very few values
    let schema = vec![field("b", DataType::Boolean, true)];
    let num_rows = 10_000;

    let vals: Vec<Option<bool>> = (0..num_rows)
        .map(|i| {
            if i % 100 == 0 {
                Some(i % 200 == 0)
            } else {
                None
            }
        })
        .collect();

    let batch = batch_of(
        schema.clone(),
        vec![boolean_cells(vals.clone())],
    )
    .unwrap();

    let data = write_file(&schema, &[batch], WriterOptions::default());
    let result = read_all(&data);
    let col = read_boolean(&result[0].columns[0]);

    for i in 0..num_rows {
        match vals[i] {
            None => assert!(col.is_null(i), "expected null at {}", i),
            Some(v) => {
                assert!(!col.is_null(i), "unexpected null at {}", i);
                assert_eq!(col.value(i), v, "mismatch at {}", i);
            }
        }
    }
}

// ======================== Large Binary / Long Strings (Page Threshold) ========================

#[test]
fn test_large_binary_values_exceed_page_threshold() {
    // PAGE_SIZE_THRESHOLD is 32KB — test values that individually exceed this
    let schema = vec![field("blob", DataType::Binary, true)];

    let num_rows = 100;
    let bin_vals: Vec<Option<Vec<u8>>> = (0..num_rows)
        .map(|i| {
            if i % 10 == 0 {
                None
            } else {
                // Each value is 40KB — exceeds page threshold
                let size = 40 * 1024;
                let val: Vec<u8> = (0..size).map(|j| ((i * 7 + j) % 256) as u8).collect();
                Some(val)
            }
        })
        .collect();

    let bin_refs: Vec<Option<&[u8]>> = bin_vals
        .iter()
        .map(|v| v.as_ref().map(|x| x.as_slice()))
        .collect();

    let batch = batch_of(
        schema.clone(),
        vec![binary_cells(bin_refs)],
    )
    .unwrap();

    let data = write_file(
        &schema,
        &[batch],
        WriterOptions {
            num_buckets: 1,
            ..Default::default()
        },
    );
    let result = read_all(&data);
    let col = read_binary(&result[0].columns[0]);

    for i in 0..num_rows {
        match &bin_vals[i] {
            None => assert!(col.is_null(i)),
            Some(expected) => {
                assert!(!col.is_null(i));
                assert_eq!(col.value(i), expected.as_slice(), "mismatch at row {}", i);
            }
        }
    }
}

#[test]
fn test_long_strings_exceed_page_threshold() {
    let schema = vec![field("text", DataType::Utf8, true)];

    let num_rows = 50;
    let str_vals: Vec<Option<String>> = (0..num_rows)
        .map(|i| {
            if i % 8 == 0 {
                None
            } else {
                // 50KB string
                let c = (b'A' + (i % 26) as u8) as char;
                Some(c.to_string().repeat(50 * 1024))
            }
        })
        .collect();
    let str_refs: Vec<Option<&str>> = str_vals.iter().map(|s| s.as_deref()).collect();

    let batch = batch_of(
        schema.clone(),
        vec![string_cells(str_refs)],
    )
    .unwrap();

    let data = write_file(
        &schema,
        &[batch],
        WriterOptions {
            num_buckets: 1,
            ..Default::default()
        },
    );
    let result = read_all(&data);
    let col = read_string(&result[0].columns[0]);

    for i in 0..num_rows {
        match &str_vals[i] {
            None => assert!(col.is_null(i)),
            Some(expected) => {
                assert!(!col.is_null(i));
                assert_eq!(col.value(i), expected.as_str(), "mismatch at row {}", i);
            }
        }
    }
}

#[test]
fn test_mixed_small_and_large_binary() {
    let schema = vec![field("data", DataType::Binary, false)];

    // Mix of tiny and large values
    let num_rows = 200;
    let bin_vals: Vec<Vec<u8>> = (0..num_rows)
        .map(|i| {
            if i % 20 == 0 {
                // 64KB value
                vec![(i % 256) as u8; 64 * 1024]
            } else {
                // 10 byte value
                vec![(i % 256) as u8; 10]
            }
        })
        .collect();
    let bin_refs: Vec<&[u8]> = bin_vals.iter().map(|v| v.as_slice()).collect();

    let batch = batch_of(
        schema.clone(),
        vec![binary_cells(bin_refs)],
    )
    .unwrap();

    let data = write_file(
        &schema,
        &[batch],
        WriterOptions {
            num_buckets: 1,
            ..Default::default()
        },
    );
    let result = read_all(&data);
    let col = read_binary(&result[0].columns[0]);

    for i in 0..num_rows {
        assert_eq!(
            col.value(i),
            bin_vals[i].as_slice(),
            "mismatch at row {}",
            i
        );
    }
}

// ======================== Fuzz-style Random Schema Tests ========================

#[test]
fn test_random_schema_seed_1() {
    run_random_schema_test(1, 20, 50_000);
}

#[test]
fn test_random_schema_seed_2() {
    run_random_schema_test(2, 30, 30_000);
}

#[test]
fn test_random_schema_seed_3() {
    run_random_schema_test(3, 10, 100_000);
}

fn run_random_schema_test(seed: u64, num_cols: usize, num_rows: usize) {
    let type_choices = [
        DataType::Boolean,
        DataType::Int8,
        DataType::Int16,
        DataType::Int32,
        DataType::Int64,
        DataType::Float32,
        DataType::Float64,
        DataType::Utf8,
        DataType::Binary,
        DataType::Date32,
        DataType::Time32(TimeUnit::Millisecond),
        DataType::Decimal128(10, 2),
        DataType::Decimal128(28, 8),
    ];

    let mut fields = Vec::new();
    for col in 0..num_cols {
        let type_idx = simple_hash(seed, col * 3) as usize % type_choices.len();
        let nullable = simple_hash(seed, col * 3 + 1) % 2 == 0;
        let dt = type_choices[type_idx];
        fields.push(field(format!("c{}", col), dt, nullable));
    }
    let schema = fields.clone();

    let mut columns: Vec<Vec<Cell>> = Vec::new();
    for (col, field) in fields.iter().enumerate() {
        let null_rate = if field.nullable {
            simple_hash(seed, col * 3 + 2) % 10 // 0-9 out of 10
        } else {
            0
        };

        let array: Vec<Cell> = match &field.data_type {
            DataType::Boolean => {
                let vals: Vec<Option<bool>> = (0..num_rows)
                    .map(|i| {
                        if simple_hash(seed + 100, col * num_rows + i) % 10 < null_rate {
                            None
                        } else {
                            Some(simple_hash(seed, col * num_rows + i) % 2 == 0)
                        }
                    })
                    .collect();
                boolean_cells(vals)
            }
            DataType::Int8 => {
                let vals: Vec<Option<i8>> = (0..num_rows)
                    .map(|i| {
                        if simple_hash(seed + 100, col * num_rows + i) % 10 < null_rate {
                            None
                        } else {
                            Some(simple_hash(seed, col * num_rows + i) as i8)
                        }
                    })
                    .collect();
                int8_cells(vals)
            }
            DataType::Int16 => {
                let vals: Vec<Option<i16>> = (0..num_rows)
                    .map(|i| {
                        if simple_hash(seed + 100, col * num_rows + i) % 10 < null_rate {
                            None
                        } else {
                            Some(simple_hash(seed, col * num_rows + i) as i16)
                        }
                    })
                    .collect();
                int16_cells(vals)
            }
            DataType::Int32 => {
                let vals: Vec<Option<i32>> = (0..num_rows)
                    .map(|i| {
                        if simple_hash(seed + 100, col * num_rows + i) % 10 < null_rate {
                            None
                        } else {
                            Some(simple_hash(seed, col * num_rows + i) as i32)
                        }
                    })
                    .collect();
                int32_cells(vals)
            }
            DataType::Int64 => {
                let vals: Vec<Option<i64>> = (0..num_rows)
                    .map(|i| {
                        if simple_hash(seed + 100, col * num_rows + i) % 10 < null_rate {
                            None
                        } else {
                            Some(simple_hash(seed, col * num_rows + i) as i64)
                        }
                    })
                    .collect();
                int64_cells(vals)
            }
            DataType::Float32 => {
                let vals: Vec<Option<f32>> = (0..num_rows)
                    .map(|i| {
                        if simple_hash(seed + 100, col * num_rows + i) % 10 < null_rate {
                            None
                        } else {
                            Some(simple_hash(seed, col * num_rows + i) as f32 / 1000.0)
                        }
                    })
                    .collect();
                float32_cells(vals)
            }
            DataType::Float64 => {
                let vals: Vec<Option<f64>> = (0..num_rows)
                    .map(|i| {
                        if simple_hash(seed + 100, col * num_rows + i) % 10 < null_rate {
                            None
                        } else {
                            Some(simple_hash(seed, col * num_rows + i) as f64 / 1000.0)
                        }
                    })
                    .collect();
                float64_cells(vals)
            }
            DataType::Utf8 => {
                let vals: Vec<Option<String>> = (0..num_rows)
                    .map(|i| {
                        if simple_hash(seed + 100, col * num_rows + i) % 10 < null_rate {
                            None
                        } else {
                            let len = (simple_hash(seed, col * num_rows + i) % 50) as usize + 1;
                            Some(
                                (0..len)
                                    .map(|j| {
                                        (b'a' + (simple_hash(seed + 200, i * len + j) % 26) as u8)
                                            as char
                                    })
                                    .collect(),
                            )
                        }
                    })
                    .collect();
                let refs: Vec<Option<&str>> = vals.iter().map(|s| s.as_deref()).collect();
                string_cells(refs)
            }
            DataType::Binary => {
                let vals: Vec<Option<Vec<u8>>> = (0..num_rows)
                    .map(|i| {
                        if simple_hash(seed + 100, col * num_rows + i) % 10 < null_rate {
                            None
                        } else {
                            let len = (simple_hash(seed, col * num_rows + i) % 64) as usize + 1;
                            Some(
                                (0..len)
                                    .map(|j| simple_hash(seed + 300, i * len + j) as u8)
                                    .collect(),
                            )
                        }
                    })
                    .collect();
                let refs: Vec<Option<&[u8]>> = vals
                    .iter()
                    .map(|v| v.as_ref().map(|x| x.as_slice()))
                    .collect();
                binary_cells(refs)
            }
            DataType::Date32 => {
                let vals: Vec<Option<i32>> = (0..num_rows)
                    .map(|i| {
                        if simple_hash(seed + 100, col * num_rows + i) % 10 < null_rate {
                            None
                        } else {
                            Some((simple_hash(seed, col * num_rows + i) % 40000) as i32)
                        }
                    })
                    .collect();
                date_cells(vals)
            }
            DataType::Time32(TimeUnit::Millisecond) => {
                let vals: Vec<Option<i32>> = (0..num_rows)
                    .map(|i| {
                        if simple_hash(seed + 100, col * num_rows + i) % 10 < null_rate {
                            None
                        } else {
                            Some((simple_hash(seed, col * num_rows + i) % 86_400_000) as i32)
                        }
                    })
                    .collect();
                time_cells(vals)
            }
            DataType::Decimal128(p, s) => {
                let p = *p;
                let s = *s;
                let max_val: i128 = 10i128.pow(p as u32) - 1;
                let vals: Vec<Option<i128>> = (0..num_rows)
                    .map(|i| {
                        if simple_hash(seed + 100, col * num_rows + i) % 10 < null_rate {
                            None
                        } else {
                            let h = simple_hash(seed, col * num_rows + i) as i128;
                            Some(h % max_val - max_val / 2)
                        }
                    })
                    .collect();
                decimal_cells(vals)
            }
            _ => unreachable!(),
        };
        columns.push(array);
    }

    let batch = batch_of(schema.clone(), columns).unwrap();

    let data = write_file(
        &schema,
        &[batch.clone()],
        WriterOptions {
            num_buckets: (simple_hash(seed, 9999) % 20 + 1) as usize,
            ..Default::default()
        },
    );
    let result = read_all(&data);
    let total_rows: usize = result.iter().map(|b| b.num_rows).sum();
    assert_eq!(total_rows, num_rows, "seed={} row count mismatch", seed);

    // Verify data integrity by checking a sample of rows
    assert_eq!(result.len(), 1);
    assert_eq!(result[0], batch, "seed={} data mismatch", seed);
}
