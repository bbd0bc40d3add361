//! Writing files.

use mosaic_core::batch::RecordBatch;
use mosaic_core::error::{Error, ErrorKind, Fault};
use mosaic_core::format::{COMPRESSION_NONE, COMPRESSION_ZSTD, FOOTER_SIZE, MAGIC, VERSION};
use mosaic_core::types::{DataType, Field};
use mosaic_core::values::Cell;
use mosaic_core::writer::{MemoryOutput, MosaicWriter, OutputFile, WriterOptions};

fn field(name: &str, data_type: DataType, nullable: bool) -> Field {
    Field {
        name: name.to_string(),
        data_type,
        nullable,
        timezone: None,
    }
}

fn batch_of(fields: Vec<Field>, columns: Vec<Vec<Cell>>) -> RecordBatch {
    let num_rows = columns.first().map_or(0, |column| column.len());
    RecordBatch::try_new(fields, columns, num_rows).unwrap()
}

fn strings(range: std::ops::Range<usize>, prefix: &str) -> Vec<Cell> {
    range
        .map(|i| Cell::Utf8(format!("{}{}", prefix, i).into_bytes()))
        .collect()
}

/// What a file that is full reports.
const FULL: Error = Error::Io(Fault {
    kind: ErrorKind::Other,
    code: 28,
});

/// A file that takes only so many bytes.
struct FullOutput {
    buf: Vec<u8>,
    room: usize,
}

impl OutputFile for FullOutput {
    fn write(&mut self, data: &[u8]) -> Result<(), Error> {
        if self.buf.len() + data.len() > self.room {
            return Err(FULL);
        }
        self.buf.extend_from_slice(data);
        Ok(())
    }
    fn flush(&mut self) -> Result<(), Error> {
        Ok(())
    }
    fn pos(&self) -> u64 {
        self.buf.len() as u64
    }
}

/// A file that notes how many bytes it had at each flush.
struct FlushedOutput {
    buf: Vec<u8>,
    flushes: Vec<usize>,
}

impl OutputFile for FlushedOutput {
    fn write(&mut self, data: &[u8]) -> Result<(), Error> {
        self.buf.extend_from_slice(data);
        Ok(())
    }
    fn flush(&mut self) -> Result<(), Error> {
        self.flushes.push(self.buf.len());
        Ok(())
    }
    fn pos(&self) -> u64 {
        self.buf.len() as u64
    }
}

#[test]
fn closing_hands_the_whole_file_on() {
    let schema = vec![field("a", DataType::Int32, true)];
    let out = FlushedOutput {
        buf: Vec::new(),
        flushes: Vec::new(),
    };
    let mut writer = MosaicWriter::new(out, &schema, WriterOptions::default()).unwrap();
    let batch = batch_of(schema, vec![(0..10).map(Cell::Int32).collect()]);
    writer.write_batch(&batch).unwrap();
    assert!(writer.output().flushes.is_empty());
    writer.close().unwrap();
    assert_eq!(writer.output().flushes, vec![writer.output().buf.len()]);
    writer.close().unwrap();
    assert_eq!(writer.output().flushes.len(), 1);
}

#[test]
fn a_refused_batch_leaves_no_trace() {
    let schema = vec![
        field("a", DataType::Int32, true),
        field("b", DataType::Utf8, true),
        field("c", DataType::Int64, true),
    ];
    let good = |k: i32| {
        batch_of(
            schema.clone(),
            vec![
                vec![Cell::Int32(k), Cell::Null],
                strings(0..2, "text"),
                vec![Cell::Null, Cell::Int64(k as i64)],
            ],
        )
    };
    let bad = batch_of(
        schema.clone(),
        vec![
            vec![Cell::Int32(7)],
            vec![Cell::Utf8(vec![0xFF])],
            vec![Cell::Int32(7)],
        ],
    );
    let options = WriterOptions {
        num_buckets: 3,
        stats_columns: vec![0, 1],
        ..Default::default()
    };
    let mut writer =
        MosaicWriter::new(MemoryOutput::new(), &schema, options.clone()).unwrap();
    writer.write_batch(&good(1)).unwrap();
    let size = writer.buffered_size();
    assert_eq!(writer.write_batch(&bad), Err(Error::TextNotUtf8));
    assert_eq!(writer.buffered_size(), size);
    writer.write_batch(&good(2)).unwrap();
    writer.close().unwrap();
    let mut other = MosaicWriter::new(MemoryOutput::new(), &schema, options).unwrap();
    other.write_batch(&good(1)).unwrap();
    other.write_batch(&good(2)).unwrap();
    other.close().unwrap();
    assert!(writer.output().buf == other.output().buf);
}

#[test]
fn test_write_simple_file() {
    let schema = vec![
        field("name", DataType::Utf8, true),
        field("age", DataType::Int32, true),
        field("score", DataType::Float64, true),
    ];
    let out = MemoryOutput::new();
    let mut writer = MosaicWriter::new(
        out,
        &schema,
        WriterOptions {
            num_buckets: 2,
            compression: COMPRESSION_NONE,
            ..Default::default()
        },
    )
    .unwrap();

    let ages: Vec<Cell> = (0..100).map(|i| Cell::Int32(20 + (i % 50))).collect();
    let scores: Vec<Cell> = (0..100)
        .map(|i| Cell::Float64((i as f64 * 1.5).to_bits()))
        .collect();
    let batch = batch_of(schema, vec![strings(0..100, "user_"), ages, scores]);
    writer.write_batch(&batch).unwrap();

    writer.close().unwrap();
    let data = &writer.output().buf;

    assert!(data.len() >= FOOTER_SIZE);
    let magic = &data[data.len() - 4..];
    assert_eq!(magic, &MAGIC);
    assert_eq!(data[data.len() - 7], VERSION);
}

#[test]
fn test_write_with_zstd() {
    let schema = vec![
        field("a", DataType::Int64, true),
        field("b", DataType::Int64, true),
    ];
    let out = MemoryOutput::new();
    let mut writer = MosaicWriter::new(
        out,
        &schema,
        WriterOptions {
            num_buckets: 1,
            compression: COMPRESSION_ZSTD,
            zstd_level: 3,
            ..Default::default()
        },
    )
    .unwrap();

    let a_vals: Vec<Cell> = (0..1000).map(Cell::Int64).collect();
    let b_vals: Vec<Cell> = (0..1000).map(|i| Cell::Int64(i * 2)).collect();
    let batch = batch_of(schema, vec![a_vals, b_vals]);
    writer.write_batch(&batch).unwrap();

    writer.close().unwrap();
    let buf = &writer.output().buf;
    let magic = &buf[buf.len() - 4..];
    assert_eq!(magic, &MAGIC);
}

#[test]
fn test_non_nullable_rejects_null() {
    let schema = vec![
        field("id", DataType::Int32, false),
        field("name", DataType::Utf8, true),
    ];
    let out = MemoryOutput::new();
    let mut writer = MosaicWriter::new(out, &schema, WriterOptions::default()).unwrap();

    let batch = batch_of(
        vec![
            field("id", DataType::Int32, true),
            field("name", DataType::Utf8, true),
        ],
        vec![
            vec![Cell::Null, Cell::Int32(1)],
            vec![
                Cell::Utf8(b"hello".to_vec()),
                Cell::Utf8(b"world".to_vec()),
            ],
        ],
    );
    let result = writer.write_batch(&batch);
    assert!(result.is_err());
    assert_eq!(result.unwrap_err().kind(), ErrorKind::InvalidInput);

    let batch2 = batch_of(
        vec![
            field("id", DataType::Int32, false),
            field("name", DataType::Utf8, true),
        ],
        vec![
            vec![Cell::Int32(1), Cell::Int32(2)],
            vec![Cell::Null, Cell::Utf8(b"world".to_vec())],
        ],
    );
    let result = writer.write_batch(&batch2);
    assert!(result.is_ok());
}

#[test]
fn buffered_size_and_totals_follow_the_row_groups() {
    let schema = vec![
        field("a", DataType::Int64, true),
        field("b", DataType::Utf8, true),
    ];
    let mut writer = MosaicWriter::new(
        MemoryOutput::new(),
        &schema,
        WriterOptions {
            num_buckets: 1,
            compression: COMPRESSION_ZSTD,
            zstd_level: 3,
            row_group_max_size: 4096,
            ..Default::default()
        },
    )
    .unwrap();
    assert_eq!(writer.buffered_size(), 0);
    assert_eq!(writer.totals(), (0, 0));

    let numbers: Vec<Cell> = (0..10).map(Cell::Int64).collect();
    let batch = batch_of(schema.clone(), vec![numbers, strings(0..10, "val_")]);
    writer.write_batch(&batch).unwrap();
    // Ten numbers, ten strings of a length byte and five characters, and a byte of
    // null flags for each row.
    assert_eq!(writer.buffered_size(), 10 * 8 + 10 * 6 + 10);
    assert_eq!(writer.num_row_groups(), 0);

    let numbers: Vec<Cell> = (10..500).map(Cell::Int64).collect();
    let batch = batch_of(schema, vec![numbers, strings(10..500, "val_")]);
    writer.write_batch(&batch).unwrap();
    assert_eq!(writer.num_row_groups(), 1);
    assert_eq!(writer.buffered_size(), 0);
    let (uncompressed, compressed) = writer.totals();
    assert!(0 < compressed && compressed < uncompressed);
    assert_eq!(writer.output().buf.len() as u64, compressed);

    writer.close().unwrap();
    assert!(writer.is_closed());
}

#[test]
fn a_full_file_is_an_error() {
    let schema = vec![field("a", DataType::Int32, false)];
    let mut writer = MosaicWriter::new(
        FullOutput {
            buf: Vec::new(),
            room: 40,
        },
        &schema,
        WriterOptions::default(),
    )
    .unwrap();
    let batch = batch_of(schema, vec![(0..100).map(Cell::Int32).collect()]);
    writer.write_batch(&batch).unwrap();
    assert_eq!(writer.close(), Err(FULL));
    assert_eq!(FULL.kind(), ErrorKind::Other);
}

#[test]
fn a_failure_of_the_file_is_handed_on_when_a_batch_fills_a_row_group() {
    let schema = vec![field("a", DataType::Int32, false)];
    let mut writer = MosaicWriter::new(
        FullOutput {
            buf: Vec::new(),
            room: 10,
        },
        &schema,
        WriterOptions {
            row_group_max_size: 1,
            ..Default::default()
        },
    )
    .unwrap();
    let batch = batch_of(schema, vec![(0..100).map(Cell::Int32).collect()]);
    assert_eq!(writer.write_batch(&batch), Err(FULL));
    assert_eq!(writer.num_row_groups(), 0);
}

#[test]
fn closing_again_neither_writes_nor_flushes() {
    let schema = vec![field("a", DataType::Int32, true)];
    let out = FlushedOutput {
        buf: Vec::new(),
        flushes: Vec::new(),
    };
    let mut writer = MosaicWriter::new(out, &schema, WriterOptions::default()).unwrap();
    writer.close().unwrap();
    let len = writer.output().buf.len();
    writer.close().unwrap();
    assert_eq!(writer.output().buf.len(), len);
    assert_eq!(writer.output().flushes, vec![len]);
}

#[test]
fn rows_of_an_unknown_compression_are_not_written() {
    let schema = vec![field("a", DataType::Int32, true)];
    let out = FullOutput {
        buf: Vec::new(),
        room: 0,
    };
    let options = WriterOptions {
        compression: 7,
        ..Default::default()
    };
    let mut writer = MosaicWriter::new(out, &schema, options).unwrap();
    let batch = batch_of(schema.clone(), vec![vec![Cell::Int32(1)]]);
    writer.write_batch(&batch).unwrap();
    assert_eq!(writer.close(), Err(Error::WriterCompression));
    assert_eq!(writer.output().buf.len(), 0);

    let eager = WriterOptions {
        compression: 7,
        row_group_max_size: 1,
        ..Default::default()
    };
    let mut writer = MosaicWriter::new(MemoryOutput::new(), &schema, eager).unwrap();
    assert_eq!(writer.write_batch(&batch), Err(Error::WriterCompression));
    assert_eq!(writer.output().buf.len(), 0);
}

#[test]
fn a_closed_writer_stays_closed() {
    let schema = vec![field("a", DataType::Int32, false)];
    let mut writer =
        MosaicWriter::new(MemoryOutput::new(), &schema, WriterOptions::default()).unwrap();
    let batch = batch_of(schema, vec![vec![Cell::Int32(1)]]);
    writer.write_batch(&batch).unwrap();
    writer.close().unwrap();
    let once = writer.output().buf.clone();
    writer.close().unwrap();
    assert_eq!(writer.output().buf, once);
    assert_eq!(writer.write_batch(&batch), Err(Error::WriterClosed));
    assert_eq!(writer.output().buf, once);
}
