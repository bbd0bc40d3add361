//! Large files, many columns and many batches, written and read back.

use mosaic_core::batch::RecordBatch;
use mosaic_core::error::Error;
use mosaic_core::format::COMPRESSION_NONE;
use mosaic_core::input::MemoryInput;
use mosaic_core::reader::{MosaicReader, ReaderAccess};
use mosaic_core::types::{DataType, Field, TimeUnit};
use mosaic_core::values::Cell;
use mosaic_core::writer::{MemoryOutput, MosaicWriter, WriterOptions};

fn field(name: impl Into<String>, data_type: DataType, nullable: bool) -> Field {
    Field {
        name: name.into(),
        data_type,
        nullable,
        timezone: None,
    }
}

fn zoned_field(name: &str, unit: TimeUnit, zone: &str, nullable: bool) -> Field {
    Field {
        name: name.to_string(),
        data_type: DataType::Timestamp(unit, true),
        nullable,
        timezone: Some(zone.to_string()),
    }
}

fn batch_of(fields: Vec<Field>, columns: Vec<Vec<Cell>>) -> Result<RecordBatch, Error> {
    let num_rows = columns.first().map_or(0, |column| column.len());
    RecordBatch::try_new(fields, columns, num_rows)
}

/// The items of a column, each of which may be null.
trait Items<T> {
    fn items(self) -> Vec<Option<T>>;
}

impl<T> Items<T> for Vec<T> {
    fn items(self) -> Vec<Option<T>> {
        self.into_iter().map(Some).collect()
    }
}

impl<T> Items<T> for Vec<Option<T>> {
    fn items(self) -> Vec<Option<T>> {
        self
    }
}

fn boolean_cells(items: impl Items<bool>) -> Vec<Cell> {
    items
        .items()
        .into_iter()
        .map(|item| item.map_or(Cell::Null, |v| Cell::Boolean(v)))
        .collect()
}

fn int8_cells(items: impl Items<i8>) -> Vec<Cell> {
    items
        .items()
        .into_iter()
        .map(|item| item.map_or(Cell::Null, |v| Cell::Int8(v)))
        .collect()
}

fn int16_cells(items: impl Items<i16>) -> Vec<Cell> {
    items
        .items()
        .into_iter()
        .map(|item| item.map_or(Cell::Null, |v| Cell::Int16(v)))
        .collect()
}

fn int32_cells(items: impl Items<i32>) -> Vec<Cell> {
    items
        .items()
        .into_iter()
        .map(|item| item.map_or(Cell::Null, |v| Cell::Int32(v)))
        .collect()
}

fn int64_cells(items: impl Items<i64>) -> Vec<Cell> {
    items
        .items()
        .into_iter()
        .map(|item| item.map_or(Cell::Null, |v| Cell::Int64(v)))
        .collect()
}

fn float32_cells(items: impl Items<f32>) -> Vec<Cell> {
    items
        .items()
        .into_iter()
        .map(|item| item.map_or(Cell::Null, |v| Cell::Float32(v.to_bits())))
        .collect()
}

fn float64_cells(items: impl Items<f64>) -> Vec<Cell> {
    items
        .items()
        .into_iter()
        .map(|item| item.map_or(Cell::Null, |v| Cell::Float64(v.to_bits())))
        .collect()
}

fn date_cells(items: impl Items<i32>) -> Vec<Cell> {
    items
        .items()
        .into_iter()
        .map(|item| item.map_or(Cell::Null, |v| Cell::Date32(v)))
        .collect()
}

fn time_cells(items: impl Items<i32>) -> Vec<Cell> {
    items
        .items()
        .into_iter()
        .map(|item| item.map_or(Cell::Null, |v| Cell::Time32(v)))
        .collect()
}

fn decimal_cells(items: impl Items<i128>) -> Vec<Cell> {
    items
        .items()
        .into_iter()
        .map(|item| item.map_or(Cell::Null, |v| Cell::Decimal128(v)))
        .collect()
}

fn timestamp_millis_cells(items: impl Items<i64>) -> Vec<Cell> {
    items
        .items()
        .into_iter()
        .map(|item| item.map_or(Cell::Null, |v| Cell::TimestampMillis(v)))
        .collect()
}

fn timestamp_micros_cells(items: impl Items<i64>) -> Vec<Cell> {
    items
        .items()
        .into_iter()
        .map(|item| item.map_or(Cell::Null, |v| Cell::TimestampMicros(v)))
        .collect()
}

fn string_cells<'a>(items: impl Items<&'a str>) -> Vec<Cell> {
    items
        .items()
        .into_iter()
        .map(|item| item.map_or(Cell::Null, |v| Cell::Utf8(v.as_bytes().to_vec())))
        .collect()
}

fn binary_cells<'a>(items: impl Items<&'a [u8]>) -> Vec<Cell> {
    items
        .items()
        .into_iter()
        .map(|item| item.map_or(Cell::Null, |v| Cell::Binary(v.to_vec())))
        .collect()
}

fn legacy_nanos_cells(millis: Vec<Option<i64>>, nanos: Vec<Option<i32>>) -> Vec<Cell> {
    millis
        .into_iter()
        .zip(nanos)
        .map(|(m, n)| match m {
            None => Cell::Null,
            Some(_) => Cell::LegacyTimestampNanos(m, n),
        })
        .collect()
}

fn roundtrip(schema: &Vec<Field>, batches: &[RecordBatch], options: WriterOptions) -> Vec<RecordBatch> {
    let out = MemoryOutput::new();
    let mut writer = MosaicWriter::new(out, schema, options).unwrap();
    for batch in batches {
        writer.write_batch(batch).unwrap();
    }
    writer.close().unwrap();

    let data = writer.output().buf.clone();
    let file_len = data.len() as u64;
    let input = MemoryInput { data };
    let reader = MosaicReader::new(input, file_len).unwrap();

    let mut result = Vec::new();
    for rg in 0..reader.num_row_groups() {
        let mut rg_reader = reader.row_group_reader(rg).unwrap();
        result.push(rg_reader.read_columns().unwrap());
    }
    result
}

fn assert_batches_equal(expected: &[RecordBatch], actual: &[RecordBatch]) {
    let expected_rows: usize = expected.iter().map(|b| b.num_rows).sum();
    let actual_rows: usize = actual.iter().map(|b| b.num_rows).sum();
    assert_eq!(expected_rows, actual_rows, "total row count mismatch");

    let mut exp_offset = 0;
    let mut act_offset = 0;
    let mut exp_batch_idx = 0;
    let mut act_batch_idx = 0;

    let num_cols = expected[0].columns.len();
    let mut row = 0;
    while row < expected_rows {
        let exp_batch = &expected[exp_batch_idx];
        let act_batch = &actual[act_batch_idx];
        let exp_remaining = exp_batch.num_rows - exp_offset;
        let act_remaining = act_batch.num_rows - act_offset;
        let chunk = exp_remaining.min(act_remaining);

        for col in 0..num_cols {
            let exp_col = &exp_batch.columns[col][exp_offset..exp_offset + chunk];
            let act_col = &act_batch.columns[col][act_offset..act_offset + chunk];
            assert!(
                exp_col == act_col,
                "mismatch at column {} rows {}..{}",
                col,
                row,
                row + chunk
            );
        }

        exp_offset += chunk;
        act_offset += chunk;
        row += chunk;
        if exp_offset == exp_batch.num_rows {
            exp_batch_idx += 1;
            exp_offset = 0;
        }
        if act_offset == act_batch.num_rows {
            act_batch_idx += 1;
            act_offset = 0;
        }
    }
}

// ============== Test: Large Int64 file (~50MB uncompressed) ==============
#[test]
fn test_large_int64_file() {
    let num_rows = 3_000_000;
    let batch_size = 100_000;
    let schema = vec![
        field("id", DataType::Int64, false),
        field("value", DataType::Int64, true),
    ];

    let mut batches = Vec::new();
    for batch_start in (0..num_rows).step_by(batch_size) {
        let end = (batch_start + batch_size).min(num_rows);
        let count = end - batch_start;
        let ids: Vec<i64> = (batch_start as i64..(batch_start + count) as i64).collect();
        let values: Vec<Option<i64>> = (0..count)
            .map(|i| {
                if (batch_start + i) % 7 == 0 {
                    None
                } else {
                    Some((batch_start + i) as i64 * 17)
                }
            })
            .collect();
        let batch = batch_of(
            schema.clone(),
            vec![
                int64_cells(ids),
                int64_cells(values),
            ],
        )
        .unwrap();
        batches.push(batch);
    }

    let result = roundtrip(
        &schema,
        &batches,
        WriterOptions {
            num_buckets: 10,
            row_group_max_size: 16 * 1024 * 1024,
            ..Default::default()
        },
    );

    assert_batches_equal(&batches, &result);
}

// ============== Test: Wide table (200 columns) ==============
#[test]
fn test_wide_table_200_columns() {
    let num_cols = 200;
    let num_rows = 50_000;
    let batch_size = 10_000;

    let fields: Vec<Field> = (0..num_cols)
        .map(|i| {
            let dt = match i % 4 {
                0 => DataType::Int32,
                1 => DataType::Int64,
                2 => DataType::Float64,
                _ => DataType::Utf8,
            };
            field(format!("col_{:04}", i), dt, true)
        })
        .collect();
    let schema = fields;

    let mut batches = Vec::new();
    for batch_start in (0..num_rows).step_by(batch_size) {
        let end = (batch_start + batch_size).min(num_rows);
        let count = end - batch_start;
        let mut arrays: Vec<Vec<Cell>> = Vec::new();
        for col in 0..num_cols {
            let arr: Vec<Cell> = match col % 4 {
                0 => {
                    let vals: Vec<Option<i32>> = (0..count)
                        .map(|i| {
                            if (batch_start + i) % 11 == 0 {
                                None
                            } else {
                                Some((batch_start + i) as i32)
                            }
                        })
                        .collect();
                    int32_cells(vals)
                }
                1 => {
                    let vals: Vec<Option<i64>> = (0..count)
                        .map(|i| {
                            if (batch_start + i) % 13 == 0 {
                                None
                            } else {
                                Some((batch_start + i) as i64 * col as i64)
                            }
                        })
                        .collect();
                    int64_cells(vals)
                }
                2 => {
                    let vals: Vec<Option<f64>> = (0..count)
                        .map(|i| {
                            if (batch_start + i) % 17 == 0 {
                                None
                            } else {
                                Some((batch_start + i) as f64 / (col + 1) as f64)
                            }
                        })
                        .collect();
                    float64_cells(vals)
                }
                _ => {
                    let vals: Vec<Option<&str>> = (0..count)
                        .map(|i| {
                            if (batch_start + i) % 19 == 0 {
                                None
                            } else {
                                Some(["alpha", "beta", "gamma", "delta"][(batch_start + i) % 4])
                            }
                        })
                        .collect();
                    string_cells(vals)
                }
            };
            arrays.push(arr);
        }
        batches.push(batch_of(schema.clone(), arrays).unwrap());
    }

    let result = roundtrip(
        &schema,
        &batches,
        WriterOptions {
            num_buckets: 50,
            row_group_max_size: 8 * 1024 * 1024,
            ..Default::default()
        },
    );

    assert_batches_equal(&batches, &result);
}

// ============== Test: All data types roundtrip at scale ==============
#[test]
fn test_all_types_at_scale() {
    let num_rows = 500_000;
    let schema = vec![
        field("bool_col", DataType::Boolean, true),
        field("i8_col", DataType::Int8, true),
        field("i16_col", DataType::Int16, true),
        field("i32_col", DataType::Int32, true),
        field("i64_col", DataType::Int64, true),
        field("f32_col", DataType::Float32, true),
        field("f64_col", DataType::Float64, true),
        field("date_col", DataType::Date32, true),
        field("time_col", DataType::Time32(TimeUnit::Millisecond), true),
        field("str_col", DataType::Utf8, true),
        field("bin_col", DataType::Binary, true),
        field("dec_col", DataType::Decimal128(10, 2), true),
        field(
            "ts_ms_col",
            DataType::Timestamp(TimeUnit::Millisecond, false),
            true,
        ),
        field(
            "ts_us_col",
            DataType::Timestamp(TimeUnit::Microsecond, false),
            true,
        ),
        field("ts_ns_col", DataType::LegacyTimestampNanos, true),
    ];

    let batch_size = 50_000;
    let mut batches = Vec::new();

    for batch_start in (0..num_rows).step_by(batch_size) {
        let end = (batch_start + batch_size).min(num_rows);
        let count = end - batch_start;

        let bools: Vec<Option<bool>> = (0..count)
            .map(|i| {
                if (batch_start + i) % 10 == 0 {
                    None
                } else {
                    Some((batch_start + i) % 2 == 0)
                }
            })
            .collect();

        let i8s: Vec<Option<i8>> = (0..count)
            .map(|i| {
                if (batch_start + i) % 15 == 0 {
                    None
                } else {
                    Some(((batch_start + i) % 256) as i8)
                }
            })
            .collect();

        let i16s: Vec<Option<i16>> = (0..count)
            .map(|i| {
                if (batch_start + i) % 12 == 0 {
                    None
                } else {
                    Some(((batch_start + i) % 30000) as i16)
                }
            })
            .collect();

        let i32s: Vec<Option<i32>> = (0..count)
            .map(|i| {
                if (batch_start + i) % 9 == 0 {
                    None
                } else {
                    Some((batch_start + i) as i32 * 3)
                }
            })
            .collect();

        let i64s: Vec<Option<i64>> = (0..count)
            .map(|i| {
                if (batch_start + i) % 8 == 0 {
                    None
                } else {
                    Some((batch_start + i) as i64 * 1_000_000)
                }
            })
            .collect();

        let f32s: Vec<Option<f32>> = (0..count)
            .map(|i| {
                if (batch_start + i) % 14 == 0 {
                    None
                } else {
                    Some((batch_start + i) as f32 * 0.1)
                }
            })
            .collect();

        let f64s: Vec<Option<f64>> = (0..count)
            .map(|i| {
                if (batch_start + i) % 11 == 0 {
                    None
                } else {
                    Some((batch_start + i) as f64 * 3.14159)
                }
            })
            .collect();

        let dates: Vec<Option<i32>> = (0..count)
            .map(|i| {
                if (batch_start + i) % 20 == 0 {
                    None
                } else {
                    Some(18000 + (batch_start + i) as i32 % 3650)
                }
            })
            .collect();

        let times: Vec<Option<i32>> = (0..count)
            .map(|i| {
                if (batch_start + i) % 25 == 0 {
                    None
                } else {
                    Some(((batch_start + i) as i32 % 86_400_000).abs())
                }
            })
            .collect();

        let strings: Vec<Option<String>> = (0..count)
            .map(|i| {
                if (batch_start + i) % 6 == 0 {
                    None
                } else {
                    Some(format!("row_{:08}", batch_start + i))
                }
            })
            .collect();
        let str_refs: Vec<Option<&str>> = strings.iter().map(|s| s.as_deref()).collect();

        let binaries: Vec<Option<Vec<u8>>> = (0..count)
            .map(|i| {
                if (batch_start + i) % 7 == 0 {
                    None
                } else {
                    let len = (batch_start + i) % 32 + 1;
                    Some(
                        (0..len)
                            .map(|j| ((batch_start + i + j) % 256) as u8)
                            .collect(),
                    )
                }
            })
            .collect();
        let bin_refs: Vec<Option<&[u8]>> = binaries
            .iter()
            .map(|b| b.as_ref().map(|v| v.as_slice()))
            .collect();

        let decimals: Vec<Option<i128>> = (0..count)
            .map(|i| {
                if (batch_start + i) % 13 == 0 {
                    None
                } else {
                    Some((batch_start + i) as i128 * 100 + 99)
                }
            })
            .collect();

        let ts_ms: Vec<Option<i64>> = (0..count)
            .map(|i| {
                if (batch_start + i) % 16 == 0 {
                    None
                } else {
                    Some(1_700_000_000_000i64 + (batch_start + i) as i64 * 1000)
                }
            })
            .collect();

        let ts_us: Vec<Option<i64>> = (0..count)
            .map(|i| {
                if (batch_start + i) % 18 == 0 {
                    None
                } else {
                    Some(1_700_000_000_000_000i64 + (batch_start + i) as i64)
                }
            })
            .collect();

        // Timestamp nanos as struct
        let millis_vals: Vec<Option<i64>> = (0..count)
            .map(|i| {
                if (batch_start + i) % 21 == 0 {
                    None
                } else {
                    Some(1_700_000_000_000i64 + (batch_start + i) as i64)
                }
            })
            .collect();
        let nanos_vals: Vec<Option<i32>> = (0..count)
            .map(|i| {
                if (batch_start + i) % 21 == 0 {
                    None
                } else {
                    Some(((batch_start + i) % 1_000_000) as i32)
                }
            })
            .collect();

        let ts_ns_struct = legacy_nanos_cells(millis_vals, nanos_vals);

        let batch = batch_of(
            schema.clone(),
            vec![
                boolean_cells(bools),
                int8_cells(i8s),
                int16_cells(i16s),
                int32_cells(i32s),
                int64_cells(i64s),
                float32_cells(f32s),
                float64_cells(f64s),
                date_cells(dates),
                time_cells(times),
                string_cells(str_refs),
                binary_cells(bin_refs),
                decimal_cells(decimals),
                timestamp_millis_cells(ts_ms),
                timestamp_micros_cells(ts_us),
                ts_ns_struct,
            ],
        )
        .unwrap();
        batches.push(batch);
    }

    let result = roundtrip(
        &schema,
        &batches,
        WriterOptions {
            num_buckets: 20,
            row_group_max_size: 32 * 1024 * 1024,
            ..Default::default()
        },
    );

    assert_batches_equal(&batches, &result);
}

// ============== Test: Large strings (variable-length stress) ==============
#[test]
fn test_large_strings() {
    let num_rows = 200_000;
    let batch_size = 20_000;
    let schema = vec![
        field("id", DataType::Int64, false),
        field("short_str", DataType::Utf8, true),
        field("long_str", DataType::Utf8, true),
        field("binary_data", DataType::Binary, true),
    ];

    let mut batches = Vec::new();
    for batch_start in (0..num_rows).step_by(batch_size) {
        let end = (batch_start + batch_size).min(num_rows);
        let count = end - batch_start;

        let ids: Vec<i64> = (batch_start as i64..(batch_start + count) as i64).collect();

        let short_strs: Vec<Option<String>> = (0..count)
            .map(|i| {
                if (batch_start + i) % 5 == 0 {
                    None
                } else {
                    Some(format!("s_{}", (batch_start + i) % 100))
                }
            })
            .collect();
        let short_refs: Vec<Option<&str>> = short_strs.iter().map(|s| s.as_deref()).collect();

        let long_strs: Vec<Option<String>> = (0..count)
            .map(|i| {
                if (batch_start + i) % 3 == 0 {
                    None
                } else {
                    let len = 100 + (batch_start + i) % 900;
                    Some("x".repeat(len))
                }
            })
            .collect();
        let long_refs: Vec<Option<&str>> = long_strs.iter().map(|s| s.as_deref()).collect();

        let bin_data: Vec<Option<Vec<u8>>> = (0..count)
            .map(|i| {
                if (batch_start + i) % 4 == 0 {
                    None
                } else {
                    let len = 50 + (batch_start + i) % 500;
                    Some(
                        (0..len)
                            .map(|j| ((batch_start + i + j) % 256) as u8)
                            .collect(),
                    )
                }
            })
            .collect();
        let bin_refs: Vec<Option<&[u8]>> = bin_data
            .iter()
            .map(|b| b.as_ref().map(|v| v.as_slice()))
            .collect();

        let batch = batch_of(
            schema.clone(),
            vec![
                int64_cells(ids),
                string_cells(short_refs),
                string_cells(long_refs),
                binary_cells(bin_refs),
            ],
        )
        .unwrap();
        batches.push(batch);
    }

    let result = roundtrip(
        &schema,
        &batches,
        WriterOptions {
            num_buckets: 4,
            row_group_max_size: 16 * 1024 * 1024,
            ..Default::default()
        },
    );

    assert_batches_equal(&batches, &result);
}

// ============== Test: Many small batches (simulating streaming writes) ==============
#[test]
fn test_many_small_batches() {
    let schema = vec![
        field("a", DataType::Int32, true),
        field("b", DataType::Utf8, true),
    ];

    let mut batches = Vec::new();
    for i in 0..5000 {
        let count = 10 + i % 50;
        let a_vals: Vec<Option<i32>> = (0..count)
            .map(|j| {
                if j % 3 == 0 {
                    None
                } else {
                    Some(i as i32 * 100 + j as i32)
                }
            })
            .collect();
        let b_vals: Vec<Option<&str>> = (0..count)
            .map(|j| if j % 4 == 0 { None } else { Some("hello") })
            .collect();
        let batch = batch_of(
            schema.clone(),
            vec![
                int32_cells(a_vals),
                string_cells(b_vals),
            ],
        )
        .unwrap();
        batches.push(batch);
    }

    let result = roundtrip(
        &schema,
        &batches,
        WriterOptions {
            num_buckets: 2,
            row_group_max_size: 1024 * 1024,
            ..Default::default()
        },
    );

    assert_batches_equal(&batches, &result);
}

// ============== Test: Extreme null patterns ==============
#[test]
fn test_extreme_null_patterns() {
    let schema = vec![
        field("all_null", DataType::Int64, true),
        field("mostly_null", DataType::Utf8, true),
        field("rarely_null", DataType::Float64, true),
        field("no_null", DataType::Int32, false),
    ];

    let num_rows = 1_000_000;
    let batch_size = 100_000;
    let mut batches = Vec::new();

    for batch_start in (0..num_rows).step_by(batch_size) {
        let end = (batch_start + batch_size).min(num_rows);
        let count = end - batch_start;

        let all_null: Vec<Option<i64>> = vec![None; count];
        let mostly_null: Vec<Option<&str>> = (0..count)
            .map(|i| {
                if (batch_start + i) % 1000 == 0 {
                    Some("rare_value")
                } else {
                    None
                }
            })
            .collect();
        let rarely_null: Vec<Option<f64>> = (0..count)
            .map(|i| {
                if (batch_start + i) % 100_000 == 0 {
                    None
                } else {
                    Some((batch_start + i) as f64)
                }
            })
            .collect();
        let no_null: Vec<i32> = (0..count).map(|i| (batch_start + i) as i32).collect();

        let batch = batch_of(
            schema.clone(),
            vec![
                int64_cells(all_null),
                string_cells(mostly_null),
                float64_cells(rarely_null),
                int32_cells(no_null),
            ],
        )
        .unwrap();
        batches.push(batch);
    }

    let result = roundtrip(
        &schema,
        &batches,
        WriterOptions {
            num_buckets: 10,
            row_group_max_size: 32 * 1024 * 1024,
            ..Default::default()
        },
    );

    assert_batches_equal(&batches, &result);
}

// ============== Test: Constant columns at scale ==============
#[test]
fn test_constant_columns_at_scale() {
    let schema = vec![
        field("const_int", DataType::Int32, false),
        field("const_str", DataType::Utf8, false),
        field("const_f64", DataType::Float64, false),
        field("varying", DataType::Int64, false),
    ];

    let num_rows = 2_000_000;
    let batch_size = 200_000;
    let mut batches = Vec::new();

    for batch_start in (0..num_rows).step_by(batch_size) {
        let end = (batch_start + batch_size).min(num_rows);
        let count = end - batch_start;

        let const_ints: Vec<i32> = vec![42; count];
        let const_strs: Vec<&str> = vec!["constant_value"; count];
        let const_f64s: Vec<f64> = vec![3.14159; count];
        let varying: Vec<i64> = (batch_start as i64..(batch_start + count) as i64).collect();

        let batch = batch_of(
            schema.clone(),
            vec![
                int32_cells(const_ints),
                string_cells(const_strs),
                float64_cells(const_f64s),
                int64_cells(varying),
            ],
        )
        .unwrap();
        batches.push(batch);
    }

    let out = MemoryOutput::new();
    let mut writer = MosaicWriter::new(
        out,
        &schema,
        WriterOptions {
            num_buckets: 4,
            row_group_max_size: 64 * 1024 * 1024,
            ..Default::default()
        },
    )
    .unwrap();
    for batch in &batches {
        writer.write_batch(batch).unwrap();
    }
    writer.close().unwrap();

    let data = writer.output().buf.clone();
    let file_size = data.len();

    // Constant columns should compress extremely well
    // Raw data would be ~30MB+ but with CONST encoding should be much smaller
    assert!(
        file_size < 20 * 1024 * 1024,
        "file size {} bytes is too large for constant columns",
        file_size
    );

    let file_len = data.len() as u64;
    let input = MemoryInput { data };
    let reader = MosaicReader::new(input, file_len).unwrap();

    let mut result = Vec::new();
    for rg in 0..reader.num_row_groups() {
        let mut rg_reader = reader.row_group_reader(rg).unwrap();
        result.push(rg_reader.read_columns().unwrap());
    }

    assert_batches_equal(&batches, &result);
}

// ============== Test: Dict encoding stress (many distinct values near limit) ==============
#[test]
fn test_dict_encoding_boundary() {
    let schema = vec![
        field("low_card", DataType::Int32, true),
        field("med_card", DataType::Utf8, true),
        field("high_card", DataType::Int64, false),
    ];

    let num_rows = 500_000;
    let batch_size = 100_000;
    let mut batches = Vec::new();

    for batch_start in (0..num_rows).step_by(batch_size) {
        let end = (batch_start + batch_size).min(num_rows);
        let count = end - batch_start;

        // 5 distinct values -> dict
        let low_card: Vec<Option<i32>> = (0..count)
            .map(|i| {
                if (batch_start + i) % 20 == 0 {
                    None
                } else {
                    Some(((batch_start + i) % 5) as i32)
                }
            })
            .collect();

        // 200 distinct values -> near dict boundary
        let med_card: Vec<Option<String>> = (0..count)
            .map(|i| {
                if (batch_start + i) % 10 == 0 {
                    None
                } else {
                    Some(format!("val_{:03}", (batch_start + i) % 200))
                }
            })
            .collect();
        let med_refs: Vec<Option<&str>> = med_card.iter().map(|s| s.as_deref()).collect();

        // All unique values -> plain
        let high_card: Vec<i64> = (batch_start as i64..(batch_start + count) as i64).collect();

        let batch = batch_of(
            schema.clone(),
            vec![
                int32_cells(low_card),
                string_cells(med_refs),
                int64_cells(high_card),
            ],
        )
        .unwrap();
        batches.push(batch);
    }

    let result = roundtrip(
        &schema,
        &batches,
        WriterOptions {
            num_buckets: 3,
            row_group_max_size: 16 * 1024 * 1024,
            ..Default::default()
        },
    );

    assert_batches_equal(&batches, &result);
}

// ============== Test: Column projection at scale ==============
#[test]
fn test_column_projection_at_scale() {
    let num_cols = 50;
    let num_rows = 200_000;
    let batch_size = 50_000;

    let fields: Vec<Field> = (0..num_cols)
        .map(|i| field(format!("col_{:03}", i), DataType::Int64, true))
        .collect();
    let schema = fields;

    let mut batches = Vec::new();
    for batch_start in (0..num_rows).step_by(batch_size) {
        let end = (batch_start + batch_size).min(num_rows);
        let count = end - batch_start;

        let arrays: Vec<Vec<Cell>> = (0..num_cols)
            .map(|col| {
                let vals: Vec<Option<i64>> = (0..count)
                    .map(|i| {
                        if (batch_start + i + col) % 10 == 0 {
                            None
                        } else {
                            Some((batch_start + i) as i64 * (col + 1) as i64)
                        }
                    })
                    .collect();
                int64_cells(vals)
            })
            .collect();

        batches.push(batch_of(schema.clone(), arrays).unwrap());
    }

    // Write
    let out = MemoryOutput::new();
    let mut writer = MosaicWriter::new(
        out,
        &schema,
        WriterOptions {
            num_buckets: 20,
            row_group_max_size: 8 * 1024 * 1024,
            ..Default::default()
        },
    )
    .unwrap();
    for batch in &batches {
        writer.write_batch(batch).unwrap();
    }
    writer.close().unwrap();

    let data = writer.output().buf.clone();
    let file_len = data.len() as u64;
    let input = MemoryInput { data };
    let reader = MosaicReader::new(input, file_len).unwrap();

    // Read only a few projected columns
    let projected_cols: Vec<usize> = vec![0, 10, 25, 49];
    for rg in 0..reader.num_row_groups() {
        let mut rg_reader = reader
            .row_group_reader_projected(rg, &projected_cols)
            .unwrap();
        let batch = rg_reader.read_columns().unwrap();
        // Should only have 4 columns
        assert_eq!(batch.columns.len(), projected_cols.len());
        assert!(batch.num_rows > 0);
    }
}

// ============== Test: Multiple row groups with varying sizes ==============
#[test]
fn test_multiple_row_groups_varying_sizes() {
    let schema = vec![
        field("id", DataType::Int64, false),
        field("data", DataType::Utf8, true),
    ];

    let mut batches = Vec::new();
    let mut total_rows = 0usize;

    // Write batches of varying sizes
    let sizes = [
        1, 10, 100, 1000, 10000, 50000, 100000, 50000, 10000, 1000, 100, 10, 1,
    ];
    for (idx, &size) in sizes.iter().enumerate() {
        let ids: Vec<i64> = (total_rows as i64..(total_rows + size) as i64).collect();
        let data: Vec<Option<String>> = (0..size)
            .map(|i| {
                if i % 3 == 0 {
                    None
                } else {
                    Some(format!("batch_{}_row_{}", idx, i))
                }
            })
            .collect();
        let data_refs: Vec<Option<&str>> = data.iter().map(|s| s.as_deref()).collect();

        let batch = batch_of(
            schema.clone(),
            vec![
                int64_cells(ids),
                string_cells(data_refs),
            ],
        )
        .unwrap();
        batches.push(batch);
        total_rows += size;
    }

    let result = roundtrip(
        &schema,
        &batches,
        WriterOptions {
            num_buckets: 2,
            row_group_max_size: 512 * 1024,
            ..Default::default()
        },
    );

    assert_batches_equal(&batches, &result);
}

// ============== Test: Edge values ==============
#[test]
fn test_edge_values() {
    let schema = vec![
        field("i32_col", DataType::Int32, true),
        field("i64_col", DataType::Int64, true),
        field("f32_col", DataType::Float32, true),
        field("f64_col", DataType::Float64, true),
        field("str_col", DataType::Utf8, true),
    ];

    let num_rows = 100_000;
    let i32_vals: Vec<Option<i32>> = (0..num_rows)
        .map(|i| match i % 7 {
            0 => None,
            1 => Some(i32::MIN),
            2 => Some(i32::MAX),
            3 => Some(0),
            4 => Some(-1),
            5 => Some(1),
            _ => Some(i as i32),
        })
        .collect();

    let i64_vals: Vec<Option<i64>> = (0..num_rows)
        .map(|i| match i % 7 {
            0 => None,
            1 => Some(i64::MIN),
            2 => Some(i64::MAX),
            3 => Some(0),
            4 => Some(-1),
            5 => Some(1),
            _ => Some(i as i64 * 1_000_000_000),
        })
        .collect();

    let f32_vals: Vec<Option<f32>> = (0..num_rows)
        .map(|i| match i % 8 {
            0 => None,
            1 => Some(f32::MIN),
            2 => Some(f32::MAX),
            3 => Some(0.0),
            4 => Some(-0.0),
            5 => Some(f32::INFINITY),
            6 => Some(f32::NEG_INFINITY),
            _ => Some(i as f32 * 0.001),
        })
        .collect();

    let f64_vals: Vec<Option<f64>> = (0..num_rows)
        .map(|i| match i % 8 {
            0 => None,
            1 => Some(f64::MIN),
            2 => Some(f64::MAX),
            3 => Some(0.0),
            4 => Some(-0.0),
            5 => Some(f64::INFINITY),
            6 => Some(f64::NEG_INFINITY),
            _ => Some(i as f64 * 0.000001),
        })
        .collect();

    let str_vals: Vec<Option<String>> = (0..num_rows)
        .map(|i| match i % 6 {
            0 => None,
            1 => Some(String::new()),
            2 => Some("a".repeat(1000)),
            3 => Some("\u{4e2d}\u{6587}\u{6d4b}\u{8bd5}".to_string()),
            4 => Some("\0\0\0".to_string()),
            _ => Some(format!("normal_{}", i)),
        })
        .collect();
    let str_refs: Vec<Option<&str>> = str_vals.iter().map(|s| s.as_deref()).collect();

    let batch = batch_of(
        schema.clone(),
        vec![
            int32_cells(i32_vals),
            int64_cells(i64_vals),
            float32_cells(f32_vals),
            float64_cells(f64_vals),
            string_cells(str_refs),
        ],
    )
    .unwrap();

    let result = roundtrip(
        &schema,
        &[batch.clone()],
        WriterOptions {
            num_buckets: 5,
            row_group_max_size: 32 * 1024 * 1024,
            ..Default::default()
        },
    );

    assert_batches_equal(&[batch], &result);
}

// ============== Test: No compression at scale ==============
#[test]
fn test_no_compression_large() {
    let schema = vec![
        field("a", DataType::Int64, false),
        field("b", DataType::Float64, true),
        field("c", DataType::Utf8, true),
    ];

    let num_rows = 500_000;
    let batch_size = 100_000;
    let mut batches = Vec::new();

    for batch_start in (0..num_rows).step_by(batch_size) {
        let end = (batch_start + batch_size).min(num_rows);
        let count = end - batch_start;

        let a: Vec<i64> = (batch_start as i64..(batch_start + count) as i64).collect();
        let b: Vec<Option<f64>> = (0..count)
            .map(|i| {
                if (batch_start + i) % 5 == 0 {
                    None
                } else {
                    Some((batch_start + i) as f64 * 2.5)
                }
            })
            .collect();
        let c: Vec<Option<String>> = (0..count)
            .map(|i| {
                if (batch_start + i) % 4 == 0 {
                    None
                } else {
                    Some(format!("item_{}", batch_start + i))
                }
            })
            .collect();
        let c_refs: Vec<Option<&str>> = c.iter().map(|s| s.as_deref()).collect();

        let batch = batch_of(
            schema.clone(),
            vec![
                int64_cells(a),
                float64_cells(b),
                string_cells(c_refs),
            ],
        )
        .unwrap();
        batches.push(batch);
    }

    let result = roundtrip(
        &schema,
        &batches,
        WriterOptions {
            num_buckets: 3,
            compression: COMPRESSION_NONE,
            row_group_max_size: 16 * 1024 * 1024,
            ..Default::default()
        },
    );

    assert_batches_equal(&batches, &result);
}

// ============== Mixed types over several row groups ==============
#[test]
fn mixed_types_over_several_row_groups() {
    let schema = vec![
        field("id", DataType::Int64, false),
        field("category", DataType::Utf8, true),
        field("amount", DataType::Float64, true),
        field(
            "timestamp",
            DataType::Timestamp(TimeUnit::Millisecond, false),
            true,
        ),
        field("description", DataType::Utf8, true),
        field("flag", DataType::Boolean, true),
        field("counter", DataType::Int32, true),
        field("price", DataType::Decimal128(12, 4), true),
    ];
    let names = [
        "electronics",
        "clothing",
        "food",
        "books",
        "toys",
        "home",
        "sports",
        "music",
    ];

    let total_rows: usize = 500_000;
    let batch_size = 25_000;
    let mut batches = Vec::new();
    for start in (0..total_rows).step_by(batch_size) {
        let rows = start..start + batch_size;
        let unless = |null: usize, i: usize| i % null != 0;
        let descriptions: Vec<Option<String>> = rows
            .clone()
            .map(|i| unless(4, i).then(|| format!("{:_>width$}", i, width = 20 + i % 80)))
            .collect();
        let categories: Vec<Option<&str>> = rows
            .clone()
            .map(|i| unless(20, i).then(|| names[i % 8]))
            .collect();
        let amounts: Vec<Option<f64>> = rows
            .clone()
            .map(|i| unless(15, i).then(|| (i as f64 % 10000.0) * 0.01))
            .collect();
        let timestamps: Vec<Option<i64>> = rows
            .clone()
            .map(|i| unless(25, i).then(|| 1_700_000_000_000i64 + i as i64 * 60_000))
            .collect();
        let flags: Vec<Option<bool>> = rows
            .clone()
            .map(|i| unless(12, i).then(|| i % 2 == 0))
            .collect();
        let counters: Vec<Option<i32>> = rows
            .clone()
            .map(|i| unless(9, i).then(|| (i % 1000) as i32))
            .collect();
        let prices: Vec<Option<i128>> = rows
            .clone()
            .map(|i| unless(11, i).then(|| (i % 1_000_000) as i128 * 10000 + 5000))
            .collect();
        let batch = batch_of(
            schema.clone(),
            vec![
                int64_cells(rows.map(|i| i as i64).collect::<Vec<i64>>()),
                string_cells(categories),
                float64_cells(amounts),
                timestamp_millis_cells(timestamps),
                string_cells(
                    descriptions
                        .iter()
                        .map(|s| s.as_deref())
                        .collect::<Vec<Option<&str>>>(),
                ),
                boolean_cells(flags),
                int32_cells(counters),
                decimal_cells(prices),
            ],
        )
        .unwrap();
        batches.push(batch);
    }

    let mut writer = MosaicWriter::new(
        MemoryOutput::new(),
        &schema,
        WriterOptions {
            num_buckets: 20,
            row_group_max_size: 8 * 1024 * 1024,
            ..Default::default()
        },
    )
    .unwrap();
    for batch in &batches {
        writer.write_batch(batch).unwrap();
    }
    writer.close().unwrap();
    let data = writer.output().buf.clone();
    let file_len = data.len() as u64;
    let reader = MosaicReader::new(MemoryInput { data }, file_len).unwrap();
    assert!(reader.num_row_groups() > 1);

    let mut found = Vec::new();
    for rg in 0..reader.num_row_groups() {
        let batch = reader.row_group_reader(rg).unwrap().read_columns().unwrap();
        assert_eq!(batch.columns.len(), 8);
        let some = reader
            .row_group_reader_projected(rg, &[0, 2, 5])
            .unwrap()
            .read_columns()
            .unwrap();
        assert_eq!(some.columns.len(), 3);
        assert!(some.columns[0] == batch.columns[0]);
        assert!(some.columns[1] == batch.columns[2]);
        assert!(some.columns[2] == batch.columns[5]);
        found.push(batch);
    }
    assert_batches_equal(&batches, &found);
}

// ============== Test: Single row batches (edge case) ==============
#[test]
fn test_single_row_batches() {
    let schema = vec![
        field("id", DataType::Int32, false),
        field("val", DataType::Utf8, true),
    ];

    let mut batches = Vec::new();
    for i in 0..10_000 {
        let val: Option<&str> = if i % 3 == 0 { None } else { Some("x") };
        let batch = batch_of(
            schema.clone(),
            vec![
                int32_cells(vec![i as i32]),
                string_cells(vec![val]),
            ],
        )
        .unwrap();
        batches.push(batch);
    }

    let result = roundtrip(
        &schema,
        &batches,
        WriterOptions {
            num_buckets: 2,
            row_group_max_size: 64 * 1024,
            ..Default::default()
        },
    );

    assert_batches_equal(&batches, &result);
}

// ============== Test: High bucket count ==============
#[test]
fn test_high_bucket_count() {
    let num_cols = 150;
    let num_rows = 100_000;

    let fields: Vec<Field> = (0..num_cols)
        .map(|i| field(format!("c_{:03}", i), DataType::Int32, true))
        .collect();
    let schema = fields;

    let arrays: Vec<Vec<Cell>> = (0..num_cols)
        .map(|col| {
            let vals: Vec<Option<i32>> = (0..num_rows)
                .map(|i| {
                    if (i + col) % 8 == 0 {
                        None
                    } else {
                        Some((i * col) as i32)
                    }
                })
                .collect();
            int32_cells(vals)
        })
        .collect();

    let batch = batch_of(schema.clone(), arrays).unwrap();

    let result = roundtrip(
        &schema,
        &[batch.clone()],
        WriterOptions {
            num_buckets: 100,
            row_group_max_size: 64 * 1024 * 1024,
            ..Default::default()
        },
    );

    assert_batches_equal(&[batch], &result);
}

// ============== Test: Paged bucket encoding at scale ==============
#[test]
fn test_paged_bucket_large() {
    let num_cols = 30;
    let num_rows = 500_000;
    let batch_size = 100_000;

    let fields: Vec<Field> = (0..num_cols)
        .map(|i| {
            let dt = if i % 3 == 0 {
                DataType::Utf8
            } else {
                DataType::Int64
            };
            field(format!("field_{:03}", i), dt, true)
        })
        .collect();
    let schema = fields;

    let mut batches = Vec::new();
    for batch_start in (0..num_rows).step_by(batch_size) {
        let end = (batch_start + batch_size).min(num_rows);
        let count = end - batch_start;

        let arrays: Vec<Vec<Cell>> = (0..num_cols)
            .map(|col| {
                if col % 3 == 0 {
                    let vals: Vec<Option<String>> = (0..count)
                        .map(|i| {
                            if (batch_start + i) % 7 == 0 {
                                None
                            } else {
                                Some(format!("field{}_{}", col, (batch_start + i) % 50))
                            }
                        })
                        .collect();
                    let refs: Vec<Option<&str>> = vals.iter().map(|s| s.as_deref()).collect();
                    string_cells(refs)
                } else {
                    let vals: Vec<Option<i64>> = (0..count)
                        .map(|i| {
                            if (batch_start + i + col) % 9 == 0 {
                                None
                            } else {
                                Some((batch_start + i) as i64 * col as i64)
                            }
                        })
                        .collect();
                    int64_cells(vals)
                }
            })
            .collect();

        batches.push(batch_of(schema.clone(), arrays).unwrap());
    }

    // Use small page_size_threshold to force paged encoding
    let result = roundtrip(
        &schema,
        &batches,
        WriterOptions {
            num_buckets: 5,
            row_group_max_size: 64 * 1024 * 1024,
            page_size_threshold: 4096,
            ..Default::default()
        },
    );

    assert_batches_equal(&batches, &result);
}

// ============== Test: Decimal128 with high precision (>18) ==============
#[test]
fn test_large_decimal_precision() {
    let schema = vec![
        field("small_dec", DataType::Decimal128(10, 2), true),
        field("large_dec", DataType::Decimal128(38, 10), true),
    ];

    let num_rows = 100_000;
    let small_vals: Vec<Option<i128>> = (0..num_rows)
        .map(|i| {
            if i % 7 == 0 {
                None
            } else {
                Some(i as i128 * 100 - 5_000_000)
            }
        })
        .collect();

    let large_vals: Vec<Option<i128>> = (0..num_rows)
        .map(|i| {
            if i % 9 == 0 {
                None
            } else {
                Some(i as i128 * 10_000_000_000i128 + 123_456_789)
            }
        })
        .collect();

    let batch = batch_of(
        schema.clone(),
        vec![
            decimal_cells(small_vals),
            decimal_cells(large_vals),
        ],
    )
    .unwrap();

    let result = roundtrip(
        &schema,
        &[batch.clone()],
        WriterOptions {
            num_buckets: 2,
            ..Default::default()
        },
    );

    assert_batches_equal(&[batch], &result);
}

// ============== Test: Timestamp with timezone ==============
#[test]
fn test_timestamp_with_timezone() {
    let tz = "America/New_York";
    let schema = vec![
        zoned_field("ts_ms_tz", TimeUnit::Millisecond, tz, true),
        zoned_field("ts_us_tz", TimeUnit::Microsecond, tz, true),
    ];

    let num_rows = 200_000;
    let ms_vals: Vec<Option<i64>> = (0..num_rows)
        .map(|i| {
            if i % 10 == 0 {
                None
            } else {
                Some(1_700_000_000_000i64 + i as i64 * 1000)
            }
        })
        .collect();

    let us_vals: Vec<Option<i64>> = (0..num_rows)
        .map(|i| {
            if i % 8 == 0 {
                None
            } else {
                Some(1_700_000_000_000_000i64 + i as i64)
            }
        })
        .collect();

    let batch = batch_of(
        schema.clone(),
        vec![
            timestamp_millis_cells(ms_vals),
            timestamp_micros_cells(us_vals),
        ],
    )
    .unwrap();

    let result = roundtrip(
        &schema,
        &[batch.clone()],
        WriterOptions {
            num_buckets: 2,
            ..Default::default()
        },
    );

    assert_batches_equal(&[batch], &result);
}

// ============== Test: Stats correctness ==============
#[test]
fn test_stats_at_scale() {
    let schema = vec![
        field("id", DataType::Int64, false),
        field("value", DataType::Int32, true),
        field("name", DataType::Utf8, true),
    ];

    let num_rows = 1_000_000;
    let batch_size = 200_000;
    let mut batches = Vec::new();

    for batch_start in (0..num_rows).step_by(batch_size) {
        let end = (batch_start + batch_size).min(num_rows);
        let count = end - batch_start;

        let ids: Vec<i64> = (batch_start as i64..(batch_start + count) as i64).collect();
        let values: Vec<Option<i32>> = (0..count)
            .map(|i| {
                if (batch_start + i) % 10 == 0 {
                    None
                } else {
                    Some(((batch_start + i) % 5000) as i32)
                }
            })
            .collect();
        let names: Vec<Option<&str>> = (0..count)
            .map(|i| {
                if (batch_start + i) % 5 == 0 {
                    None
                } else {
                    Some("test")
                }
            })
            .collect();

        let batch = batch_of(
            schema.clone(),
            vec![
                int64_cells(ids),
                int32_cells(values),
                string_cells(names),
            ],
        )
        .unwrap();
        batches.push(batch);
    }

    // Write with stats on columns 0 and 1
    let out = MemoryOutput::new();
    let mut writer = MosaicWriter::new(
        out,
        &schema,
        WriterOptions {
            num_buckets: 10,
            row_group_max_size: 32 * 1024 * 1024,
            stats_columns: vec![0, 1],
            ..Default::default()
        },
    )
    .unwrap();
    for batch in &batches {
        writer.write_batch(batch).unwrap();
    }
    writer.close().unwrap();

    let data = writer.output().buf.clone();
    let file_len = data.len() as u64;
    let input = MemoryInput { data };
    let reader = MosaicReader::new(input, file_len).unwrap();

    // Verify stats exist and are sensible
    for rg in 0..reader.num_row_groups() {
        let stats = reader.row_group_stats(rg).unwrap();
        assert!(!stats.is_empty(), "stats should exist for row group {}", rg);
    }
}

// ============== Test: Concurrent/parallel read_ranges ==============
#[test]
fn test_parallel_read_ranges() {
    let schema = vec![
        field("a", DataType::Int64, false),
        field("b", DataType::Utf8, true),
        field("c", DataType::Float64, true),
        field("d", DataType::Int32, true),
    ];

    let num_rows = 1_000_000;
    let batch_size = 200_000;
    let mut batches = Vec::new();

    for batch_start in (0..num_rows).step_by(batch_size) {
        let end = (batch_start + batch_size).min(num_rows);
        let count = end - batch_start;

        let a: Vec<i64> = (batch_start as i64..(batch_start + count) as i64).collect();
        let b: Vec<Option<&str>> = (0..count)
            .map(|i| {
                if (batch_start + i) % 3 == 0 {
                    None
                } else {
                    Some("data")
                }
            })
            .collect();
        let c: Vec<Option<f64>> = (0..count)
            .map(|i| {
                if (batch_start + i) % 5 == 0 {
                    None
                } else {
                    Some(i as f64)
                }
            })
            .collect();
        let d: Vec<Option<i32>> = (0..count)
            .map(|i| {
                if (batch_start + i) % 7 == 0 {
                    None
                } else {
                    Some(i as i32)
                }
            })
            .collect();

        let batch = batch_of(
            schema.clone(),
            vec![
                int64_cells(a),
                string_cells(b),
                float64_cells(c),
                int32_cells(d),
            ],
        )
        .unwrap();
        batches.push(batch);
    }

    let result = roundtrip(
        &schema,
        &batches,
        WriterOptions {
            num_buckets: 30,
            row_group_max_size: 8 * 1024 * 1024,
            ..Default::default()
        },
    );

    assert_batches_equal(&batches, &result);
}

// ============== Test: Empty strings and binary ==============
#[test]
fn test_empty_strings_binary() {
    let schema = vec![
        field("str_col", DataType::Utf8, true),
        field("bin_col", DataType::Binary, true),
    ];

    let num_rows = 100_000;
    let str_vals: Vec<Option<&str>> = (0..num_rows)
        .map(|i| match i % 5 {
            0 => None,
            1 => Some(""),
            2 => Some("a"),
            3 => Some("hello world this is a test string"),
            _ => Some("x"),
        })
        .collect();

    let bin_val_a: [u8; 0] = [];
    let bin_val_b: [u8; 1] = [0u8];
    let bin_val_c: [u8; 5] = [1, 2, 3, 4, 5];
    let bin_val_d: [u8; 1] = [255u8];
    let bin_vals: Vec<Option<&[u8]>> = (0..num_rows)
        .map(|i| match i % 5 {
            0 => None,
            1 => Some(bin_val_a.as_slice()),
            2 => Some(bin_val_b.as_slice()),
            3 => Some(bin_val_c.as_slice()),
            _ => Some(bin_val_d.as_slice()),
        })
        .collect();

    let batch = batch_of(
        schema.clone(),
        vec![
            string_cells(str_vals),
            binary_cells(bin_vals),
        ],
    )
    .unwrap();

    let result = roundtrip(
        &schema,
        &[batch.clone()],
        WriterOptions {
            num_buckets: 2,
            ..Default::default()
        },
    );

    assert_batches_equal(&[batch], &result);
}
