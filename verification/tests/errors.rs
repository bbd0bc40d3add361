//! An input for each error.

use mosaic_core::batch::RecordBatch;
use mosaic_core::blocks;
use mosaic_core::bucket_reader::{BucketReader, ColumnPageReader};
use mosaic_core::bucket_writer::BucketWriter;
use mosaic_core::error::{Error, ErrorKind};
use mosaic_core::format::{
    COMPRESSION_NONE, COMPRESSION_ZSTD, ENCODING_DICT, ENCODING_PLAIN, FOOTER_SIZE,
};
use mosaic_core::input::MemoryInput;
use mosaic_core::layout;
use mosaic_core::reader::{MosaicReader, ReaderAccess};
use mosaic_core::row_group;
use mosaic_core::schema::{ColumnMeta, MosaicSchema};
use mosaic_core::stats;
use mosaic_core::types;
use mosaic_core::types::{DataType, Field, TimeUnit};
use mosaic_core::values::{Cell, Value};
use mosaic_core::writer::{MemoryOutput, MosaicWriter, WriterOptions};

fn field(name: &str, data_type: DataType) -> Field {
    Field {
        name: name.to_string(),
        data_type,
        nullable: true,
        timezone: None,
    }
}

fn column(data_type: DataType) -> ColumnMeta {
    ColumnMeta {
        name: "a".to_string(),
        data_type,
        nullable: true,
        bucket_id: 0,
        timezone: None,
    }
}

/// A file of one column of ten numbers.
fn small_file(compression: u8, page_size_threshold: usize) -> Vec<u8> {
    let schema = vec![field("a", DataType::Int32)];
    let mut writer = MosaicWriter::new(
        MemoryOutput::new(),
        &schema,
        WriterOptions {
            compression,
            page_size_threshold,
            ..Default::default()
        },
    )
    .unwrap();
    let cells = (0..10).map(Cell::Int32).collect();
    let batch = RecordBatch::try_new(schema, vec![cells], 10).unwrap();
    writer.write_batch(&batch).unwrap();
    writer.close().unwrap();
    writer.output().buf.clone()
}

fn open(data: &[u8]) -> Result<MosaicReader<MemoryInput>, Error> {
    MosaicReader::new(
        MemoryInput {
            data: data.to_vec(),
        },
        data.len() as u64,
    )
}

fn open_error(data: &[u8]) -> Option<Error> {
    open(data).err()
}

/// Where the index of a file starts.
fn index_start(data: &[u8]) -> usize {
    let footer = &data[data.len() - FOOTER_SIZE..];
    let mut offset = [0u8; 8];
    offset.copy_from_slice(&footer[..8]);
    u64::from_be_bytes(offset) as usize
}

fn field_error(bytes: &[u8]) -> Option<Error> {
    let mut pos = 0;
    types::deserialize_field("f", bytes, &mut pos).err()
}

fn schema_error(bytes: &[u8]) -> Option<Error> {
    MosaicSchema::deserialize(bytes).err()
}

fn fields_error(fields: Vec<Field>) -> Option<Error> {
    MosaicSchema::from_fields(&fields, 1).err()
}

fn page(dt: DataType, encoding: u8, has_nulls: bool, data: &[u8]) -> Result<Vec<Cell>, Error> {
    match ColumnPageReader::new(dt, encoding, has_nulls, Value::Null, data.to_vec(), 1) {
        Ok(reader) => reader.read_all(),
        Err(e) => Err(e),
    }
}

#[test]
fn timestamps_that_cannot_be_joined() {
    assert_eq!(types::millis_nanos_to_ns(2, 5), Ok(2_000_005));
    assert_eq!(types::millis_nanos_to_ns(-1, 999_999), Ok(-1));
    assert_eq!(
        types::millis_nanos_to_ns(0, 1_000_000),
        Err(Error::InvalidNanosOfMilli)
    );
    assert_eq!(
        types::millis_nanos_to_ns(0, -1),
        Err(Error::InvalidNanosOfMilli)
    );
    assert_eq!(
        types::millis_nanos_to_ns(i64::MAX, 0),
        Err(Error::TimestampOverflow)
    );
    assert_eq!(types::ns_to_millis_nanos(-1), (-1, 999_999));
}

#[test]
fn type_descriptions_that_are_cut_off_or_unknown() {
    assert_eq!(field_error(&[3]), Some(Error::TypeHeaderEof));
    assert_eq!(field_error(&[18, 1]), Some(Error::UnknownTypeTag));
    assert_eq!(field_error(&[17, 1, 3, 5, b'U']), Some(Error::TimezoneEof));
    assert_eq!(field_error(&[17, 1, 3, 1, 0xFF]), Some(Error::TimezoneUtf8));
    assert_eq!(field_error(&[14, 1]), Some(Error::VarintEof));
    assert_eq!(Error::TypeHeaderEof.kind(), ErrorKind::UnexpectedEof);
}

#[test]
fn fields_that_cannot_be_stored() {
    assert_eq!(
        fields_error(vec![field("a", DataType::Unsupported)]),
        Some(Error::UnsupportedType)
    );
    assert_eq!(
        fields_error(vec![field("a", DataType::Time32(TimeUnit::Second))]),
        Some(Error::UnsupportedType)
    );
    assert_eq!(
        fields_error(vec![field("a", DataType::Decimal128(0, 0))]),
        Some(Error::DecimalPrecision)
    );
    assert_eq!(
        fields_error(vec![field("a", DataType::Decimal128(39, 0))]),
        Some(Error::DecimalPrecision)
    );
    assert_eq!(
        fields_error(vec![field("a", DataType::Timestamp(TimeUnit::Second, false))]),
        Some(Error::UnsupportedTimestampUnit)
    );
    assert_eq!(
        fields_error(vec![field("a", DataType::Timestamp(TimeUnit::Millisecond, true))]),
        Some(Error::TimezoneMismatch)
    );
    assert_eq!(
        fields_error(vec![field("a", DataType::Int32), field("a", DataType::Int64)]),
        Some(Error::DuplicateColumn)
    );
}

#[test]
fn schema_blocks_that_are_corrupt() {
    assert!(MosaicSchema::deserialize(&[1, 1, 1, b'a', 0, 3, 1, 0]).is_ok());
    assert_eq!(schema_error(&[1, 1, 5, b'a']), Some(Error::SchemaTruncated));
    assert_eq!(
        schema_error(&[1, 1, 1, 0xFF, 0, 3, 1, 0]),
        Some(Error::SchemaName)
    );
    assert_eq!(
        schema_error(&[1, 1, 1, b'a', 0, 3, 1, 1]),
        Some(Error::SchemaBucket)
    );
    assert_eq!(
        schema_error(&[2, 1, 1, b'a', 0, 3, 1, 0]),
        Some(Error::SchemaBucket)
    );
    assert_eq!(
        schema_error(&[1, 1, 1, b'a', 0, 3, 1, 0, 9]),
        Some(Error::SchemaTrailing)
    );
    assert_eq!(
        schema_error(&[0, 1, 1, b'a', 0, 3, 1, 0]),
        Some(Error::ZeroBuckets)
    );
}

#[test]
fn cells_that_a_bucket_refuses() {
    let mut writer = BucketWriter::new(&vec![DataType::LegacyTimestampNanos], 32768, 255);
    let half = vec![Cell::LegacyTimestampNanos(Some(1), None)];
    assert_eq!(
        writer.write_columns(&vec![&half]),
        Err(Error::LegacyChildNull)
    );
    let late = vec![Cell::LegacyTimestampNanos(Some(1), Some(1_000_000))];
    assert_eq!(
        writer.write_columns(&vec![&late]),
        Err(Error::LegacyInvalidNanos)
    );
    let other = vec![Cell::Int32(1)];
    assert_eq!(
        writer.write_columns(&vec![&other]),
        Err(Error::ColumnTypeMismatch)
    );
    assert!(writer.is_empty());
    let mut text = BucketWriter::new(&vec![DataType::Utf8], 32768, 255);
    let broken = vec![Cell::Utf8(vec![0xC3, 0x28])];
    assert_eq!(
        text.write_columns(&vec![&broken]),
        Err(Error::TextNotUtf8)
    );
    assert_eq!(Error::TextNotUtf8.kind(), ErrorKind::InvalidInput);
    assert!(text.is_empty());
}

#[test]
fn buckets_that_are_cut_off() {
    let short = BucketReader::new(vec![DataType::Int32], vec![], 10);
    assert_eq!(short.err(), Some(Error::BucketTruncated));
    let no_constant = BucketReader::new(vec![DataType::Int32], vec![1, 0, 7], 10);
    assert_eq!(no_constant.err(), Some(Error::BucketTruncated));
    let no_length = BucketReader::new(vec![DataType::Utf8], vec![1, 0], 10);
    assert_eq!(no_length.err(), Some(Error::ValueVarint));
    let no_value = BucketReader::new(vec![DataType::Utf8], vec![1, 0, 4, b'a'], 10);
    assert_eq!(no_value.err(), Some(Error::ValueTruncated));
}

#[test]
fn pages_that_are_corrupt() {
    assert_eq!(
        ColumnPageReader::new_with_page_data_start(
            DataType::Int32,
            ENCODING_PLAIN,
            false,
            Value::Null,
            vec![],
            1,
            1,
        )
        .err(),
        Some(Error::PageStart)
    );
    assert_eq!(
        page(DataType::Int32, ENCODING_PLAIN, true, &[]),
        Err(Error::PageNullBitmap)
    );
    assert_eq!(
        page(DataType::Int32, ENCODING_PLAIN, false, &[0, 0]),
        Err(Error::PagePlainFixed)
    );
    assert_eq!(
        page(DataType::Utf8, ENCODING_PLAIN, false, &[5, b'a']),
        Err(Error::PagePlainVariable)
    );
    assert_eq!(
        page(DataType::Int32, ENCODING_DICT, false, &[2, 0, 0]),
        Err(Error::PageTruncated)
    );
    let dict = [2, 0, 0, 0, 1, 0, 0, 0, 2];
    assert_eq!(
        page(DataType::Int32, ENCODING_DICT, false, &dict),
        Err(Error::PageDictIndices)
    );
    let dict = [3, 0, 0, 0, 1, 0, 0, 0, 2, 0, 0, 0, 3, 0b01];
    assert_eq!(
        page(DataType::Int32, ENCODING_DICT, false, &dict),
        Ok(vec![Cell::Int32(2)])
    );
    let dict = [3, 0, 0, 0, 1, 0, 0, 0, 2, 0, 0, 0, 3, 0b11];
    assert_eq!(
        page(DataType::Int32, ENCODING_DICT, false, &dict),
        Err(Error::CorruptDictIndex)
    );
    let mut wide = vec![17u8];
    wide.extend_from_slice(&[0; 17]);
    assert_eq!(
        page(DataType::Decimal128(30, 0), ENCODING_PLAIN, false, &wide),
        Err(Error::DecimalTooWide)
    );
    assert_eq!(
        page(DataType::Utf8, ENCODING_PLAIN, false, &[2, 0xC3, 0x28]),
        Err(Error::CorruptText)
    );
    assert_eq!(
        page(DataType::Utf8, ENCODING_PLAIN, false, &[2, 0xC3, 0xA9]),
        Ok(vec![Cell::Utf8("\u{e9}".as_bytes().to_vec())])
    );
    assert_eq!(Error::CorruptText.kind(), ErrorKind::InvalidData);
    let nanos = DataType::Timestamp(TimeUnit::Nanosecond, false);
    let late = [0, 0, 0, 0, 0, 0, 0, 1, 0x00, 0x0F, 0x42, 0x40];
    assert_eq!(
        page(nanos, ENCODING_PLAIN, false, &late),
        Err(Error::InvalidNanosOfMilli)
    );
}

#[test]
fn page_contents_that_are_corrupt() {
    let content = |dt: DataType, bytes: &[u8]| row_group::open_content(&dt, bytes, 1).err();
    assert_eq!(content(DataType::Int32, &[0]), Some(Error::PageContentShort));
    let unknown = |rows| row_group::open_content(&DataType::Int32, &[4, 0], rows).unwrap();
    assert_eq!(unknown(1).read_all(), Err(Error::UnknownEncoding));
    assert_eq!(unknown(0).read_all(), Ok(vec![]));
    assert_eq!(
        content(DataType::Int32, &[1, 0, 0, 0]),
        Some(Error::PageConstTruncated)
    );
    assert_eq!(content(DataType::Int32, &[1, 0, 0, 0, 0, 7]), None);
}

#[test]
fn statistics_that_are_corrupt() {
    let read = |dt: DataType, bytes: &[u8]| {
        let mut pos = 0;
        stats::deserialize_stats(bytes, &mut pos, &vec![column(dt)], 10).err()
    };
    assert_eq!(
        read(DataType::Int32, &[1, 1, 0]),
        Some(Error::StatsColumnIndex)
    );
    assert_eq!(
        read(DataType::Int32, &[1, 0, 11]),
        Some(Error::StatsNullCount)
    );
    assert_eq!(
        read(DataType::Int32, &[1, 0, 0, 0, 0]),
        Some(Error::StatsFixedEof)
    );
    assert_eq!(
        read(DataType::Utf8, &[1, 0, 0, 4, b'a']),
        Some(Error::StatsVariableEof)
    );
    assert_eq!(read(DataType::Int32, &[1, 0, 10]), None);
}

#[test]
fn indices_that_are_corrupt() {
    let columns = vec![column(DataType::Int32)];
    let read = |bytes: &[u8], limit: u64, num_buckets: usize| {
        layout::read_index(bytes, limit, num_buckets, &columns, 1).err()
    };
    let entry = |bucket: u8, offset: u64, size: u8, raw: u8| {
        let mut bytes = vec![bucket];
        bytes.extend_from_slice(&offset.to_be_bytes());
        bytes.extend_from_slice(&[size, raw]);
        bytes
    };
    let group = |entries: &[Vec<u8>]| {
        let mut bytes = vec![1u8, entries.len() as u8];
        for e in entries {
            bytes.extend_from_slice(e);
        }
        bytes.push(0);
        bytes
    };
    assert_eq!(read(&group(&[entry(0, 3, 5, 5)]), 8, 1), None);
    assert_eq!(read(&[1, 2], 8, 1), Some(Error::NonEmptyCount));
    assert_eq!(
        read(&group(&[entry(1, 3, 5, 5)]), 8, 1),
        Some(Error::IndexCorrupt)
    );
    assert_eq!(
        read(&group(&[entry(0, 3, 5, 5), entry(0, 3, 5, 5)]), 8, 2),
        Some(Error::DuplicateBucket)
    );
    assert_eq!(
        read(&group(&[entry(0, 3, 0, 5)]), 8, 1),
        Some(Error::BadLayout)
    );
    assert_eq!(
        read(&group(&[entry(0, u64::MAX, 5, 5)]), 8, 1),
        Some(Error::BucketOverflow)
    );
    assert_eq!(
        read(&group(&[entry(0, 4, 5, 5)]), 8, 1),
        Some(Error::BucketPastSchema)
    );
    let mut more = group(&[entry(0, 3, 5, 5)]);
    more.push(0);
    assert_eq!(read(&more, 8, 1), Some(Error::TrailingIndex));
}

#[test]
fn files_whose_end_is_corrupt() {
    let file = small_file(COMPRESSION_ZSTD, 32768);
    let n = file.len();
    assert_eq!(open_error(&file), None);
    assert_eq!(open_error(&file[..10]), Some(Error::FileTooSmall));
    let changed = |place: usize, byte: u8| {
        let mut other = file.clone();
        other[place] = byte;
        open_error(&other)
    };
    assert_eq!(changed(n - 1, b'B'), Some(Error::BadMagic));
    assert_eq!(changed(n - 7, 2), Some(Error::UnsupportedVersion));
    assert_eq!(changed(n - 8, 9), Some(Error::UnknownCompression));
    assert_eq!(changed(n - FOOTER_SIZE, 1), Some(Error::FooterOffsets));
    assert_eq!(changed(n - 13, 2), Some(Error::NumBucketsMismatch));
    assert_eq!(Error::BadMagic.message(), "bad magic bytes");
    assert_eq!(Error::BadMagic.kind(), ErrorKind::InvalidData);
}

#[test]
fn row_groups_and_columns_that_are_not_there() {
    let file = small_file(COMPRESSION_ZSTD, 32768);
    let mut reader = open(&file).unwrap();
    assert_eq!(reader.row_group_num_rows(1), Err(Error::RowGroupRange));
    assert_eq!(reader.row_group_stats(1).err(), Some(Error::RowGroupRange));
    assert_eq!(reader.row_group_reader(1).err(), Some(Error::RowGroupRange));
    assert_eq!(
        reader.row_group_reader_projected(0, &[1]).err(),
        Some(Error::ColumnRange)
    );
    assert_eq!(reader.project(&["b"]), Err(Error::UnknownColumn));
    assert!(reader.row_group_reader(0).is_ok());
}

#[test]
fn buckets_that_are_not_what_the_index_says() {
    // One bucket in one block, said to be paged.
    let mut file = small_file(COMPRESSION_NONE, 32768);
    let at = index_start(&file);
    file[at + 12] = 0;
    let reader = open(&file).unwrap();
    assert_eq!(
        reader.row_group_reader(0).err(),
        Some(Error::PagedNeedsZstd)
    );

    // The same, and shorter than its directory.
    let mut file = small_file(COMPRESSION_ZSTD, 32768);
    let at = index_start(&file);
    file[at + 11] = 3;
    file[at + 12] = 0;
    let reader = open(&file).unwrap();
    assert_eq!(
        reader.row_group_reader(0).err(),
        Some(Error::PagedDirectorySize)
    );

    // A directory with a wrong size.
    let mut file = small_file(COMPRESSION_ZSTD, 1);
    file[0] = file[0].wrapping_add(1);
    let reader = open(&file).unwrap();
    assert_eq!(
        reader.row_group_reader(0).err(),
        Some(Error::PagedDirectoryMismatch)
    );

    // A block that is no frame.
    let mut file = small_file(COMPRESSION_ZSTD, 32768);
    file[0] = 0;
    let reader = open(&file).unwrap();
    assert_eq!(reader.row_group_reader(0).err(), Some(Error::Decompress));
}

#[test]
fn blocks_that_are_no_frames() {
    assert_eq!(blocks::inflate(&[1, 2, 3], 10), Err(Error::Decompress));
    let frame = blocks::deflate(&[7; 100], 3).unwrap();
    assert_eq!(blocks::inflate(&frame, 100), Ok(vec![7; 100]));
    assert_eq!(blocks::inflate(&frame, 1000), Ok(vec![7; 100]));
    let nothing = blocks::deflate(&[], 3).unwrap();
    assert_eq!(blocks::inflate(&nothing, 0), Ok(vec![]));
    assert_eq!(blocks::inflate(&frame, 50), Err(Error::Decompress));
    assert_eq!(
        blocks::unpack(COMPRESSION_NONE, &[1, 2, 3], 3),
        Ok(vec![1, 2, 3])
    );
    assert_eq!(
        blocks::unpack(9, &[1, 2, 3], 3),
        Err(Error::UnknownCompression)
    );
}

#[test]
fn batches_that_are_refused() {
    let required = Field {
        nullable: false,
        ..field("a", DataType::Int32)
    };
    assert_eq!(
        RecordBatch::try_new(vec![required.clone()], vec![vec![Cell::Null]], 1),
        Err(Error::BatchNonNullable)
    );
    let schema = vec![required, field("b", DataType::Int32)];
    let mut writer =
        MosaicWriter::new(MemoryOutput::new(), &schema, WriterOptions::default()).unwrap();
    let narrow = RecordBatch::try_new(
        vec![field("a", DataType::Int32)],
        vec![vec![Cell::Int32(1)]],
        1,
    )
    .unwrap();
    assert_eq!(writer.write_batch(&narrow), Err(Error::ColumnCount));
    let null = RecordBatch::try_new(
        vec![field("a", DataType::Int32), field("b", DataType::Int32)],
        vec![vec![Cell::Null], vec![Cell::Int32(1)]],
        1,
    )
    .unwrap();
    assert_eq!(writer.write_batch(&null), Err(Error::NonNullable));
    let mistyped = RecordBatch::try_new(
        vec![field("a", DataType::Int64), field("b", DataType::Int32)],
        vec![vec![Cell::Int64(1)], vec![Cell::Int32(1)]],
        1,
    )
    .unwrap();
    assert_eq!(
        writer.write_batch(&mistyped),
        Err(Error::ColumnTypeMismatch)
    );
}

#[test]
fn columns_that_make_no_batch() {
    let required = Field {
        nullable: false,
        ..field("a", DataType::Int32)
    };
    assert_eq!(
        RecordBatch::try_new(vec![], vec![vec![Cell::Int32(1)]], 1),
        Err(Error::BatchColumns)
    );
    assert_eq!(
        RecordBatch::try_new(vec![field("a", DataType::Int32)], vec![vec![Cell::Int32(1)]], 2),
        Err(Error::BatchLengths)
    );
    assert_eq!(
        RecordBatch::try_new(vec![required], vec![vec![Cell::Null]], 2),
        Err(Error::BatchNonNullable)
    );
    assert_eq!(Error::BatchColumns.kind(), ErrorKind::Other);
    assert_eq!(Error::BatchLengths.kind(), ErrorKind::Other);
}

#[test]
fn nulls_that_are_declared_with_another_type_are_refused() {
    let batch = |data_type, rows| {
        RecordBatch::try_new(
            vec![field("a", data_type)],
            vec![vec![Cell::Null; rows]],
            rows,
        )
        .unwrap()
    };
    for (own, other, same) in [
        (DataType::Int32, DataType::Int64, DataType::Int32),
        (DataType::Utf8, DataType::Binary, DataType::Utf8),
        (
            DataType::Decimal128(10, 2),
            DataType::Int64,
            DataType::Decimal128(38, 0),
        ),
        (
            DataType::Timestamp(TimeUnit::Millisecond, false),
            DataType::Timestamp(TimeUnit::Microsecond, false),
            DataType::Timestamp(TimeUnit::Millisecond, true),
        ),
    ] {
        let schema = vec![field("a", own)];
        let mut writer =
            MosaicWriter::new(MemoryOutput::new(), &schema, WriterOptions::default()).unwrap();
        assert_eq!(
            writer.write_batch(&batch(other, 3)),
            Err(Error::ColumnTypeMismatch)
        );
        assert_eq!(writer.write_batch(&batch(other, 0)), Ok(()));
        assert_eq!(writer.buffered_size(), 0);
        assert_eq!(writer.write_batch(&batch(same, 3)), Ok(()));
        assert!(writer.buffered_size() > 0);
    }
}

#[test]
fn the_first_of_two_errors_in_a_batch_is_the_one_reported() {
    let own = vec![
        field("a", DataType::LegacyTimestampNanos),
        field("b", DataType::Int32),
    ];
    let given = vec![
        field("a", DataType::LegacyTimestampNanos),
        field("b", DataType::Int64),
    ];
    let mut writer = MosaicWriter::new(
        MemoryOutput::new(),
        &own,
        WriterOptions {
            num_buckets: 1,
            ..Default::default()
        },
    )
    .unwrap();
    let batch = RecordBatch::try_new(
        given,
        vec![
            vec![Cell::LegacyTimestampNanos(None, Some(1))],
            vec![Cell::Null],
        ],
        1,
    )
    .unwrap();
    assert_eq!(writer.write_batch(&batch), Err(Error::LegacyChildNull));
}

#[test]
fn more_rows_than_can_be_counted_are_refused() {
    let schema = vec![];
    let mut writer =
        MosaicWriter::new(MemoryOutput::new(), &schema, WriterOptions::default()).unwrap();
    let many = RecordBatch::try_new(vec![], vec![], usize::MAX).unwrap();
    let one = RecordBatch::try_new(vec![], vec![], 1).unwrap();
    assert_eq!(writer.write_batch(&many), Ok(()));
    assert_eq!(writer.write_batch(&one), Err(Error::SizeOverflow));
}

#[test]
fn unknown_compression_is_noticed_when_a_block_is_written() {
    let schema = vec![field("a", DataType::Int32)];
    let mut writer = MosaicWriter::new(
        MemoryOutput::new(),
        &schema,
        WriterOptions {
            compression: 7,
            ..Default::default()
        },
    )
    .unwrap();
    assert_eq!(writer.close(), Err(Error::WriterCompression));
}

#[test]
fn sizes_of_more_than_32_bits() {
    assert_eq!(layout::to_u32(4_294_967_295), Ok(u32::MAX));
    assert_eq!(layout::to_u32(4_294_967_296), Err(Error::SizeOverflow));
}
