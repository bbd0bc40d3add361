//! The errors of the format, each with the kind that callers dispatch on.

use vstd::prelude::*;

verus! {

/// The class of an [`Error`].
#[derive(Debug, Clone, Copy, PartialEq, Eq, Structural)]
pub enum ErrorKind {
    /// The data ends before the item that is being read.
    UnexpectedEof,
    /// The data is not what the format allows.
    InvalidData,
    /// The caller handed in something that cannot be written or found.
    InvalidInput,
    /// A failure outside of the format, such as one of the underlying file.
    Other,
}

/// A failure of the file that is read or written, as the file reports it.
#[derive(Debug, Clone, Copy, PartialEq, Eq, Structural)]
pub struct Fault {
    pub kind: ErrorKind,
    /// By what the file tells its failures apart.
    pub code: u64,
}

/// Everything that reading or writing can fail with.
#[derive(Debug, Clone, Copy, PartialEq, Eq, Structural)]
pub enum Error {
    /// A varint runs past the end of the data.
    VarintEof,
    /// A varint has more continuation bytes than its width allows.
    VarintOverflow,
    /// The nanoseconds within a millisecond are not in `0..1_000_000`.
    InvalidNanosOfMilli,
    /// A timestamp does not fit in 64 bits of nanoseconds.
    TimestampOverflow,
    /// A type description ends before its two header bytes.
    TypeHeaderEof,
    /// A type description ends within its time zone.
    TimezoneEof,
    /// A time zone is not UTF-8.
    TimezoneUtf8,
    /// A type description starts with a tag that is not known.
    UnknownTypeTag,
    /// A column type that the format cannot store.
    UnsupportedType,
    /// A decimal precision outside of `1..=38`.
    DecimalPrecision,
    /// A timestamp unit that the format cannot store.
    UnsupportedTimestampUnit,
    /// A cell that is not of its column's type.
    ColumnTypeMismatch,
    /// A legacy timestamp with a null child in a row that is not null.
    LegacyChildNull,
    /// A legacy timestamp whose nanoseconds are not in `0..1_000_000`.
    LegacyInvalidNanos,
    /// Text to be stored that is not UTF-8.
    TextNotUtf8,
    /// Bucket data ends before what its header announces.
    BucketTruncated,
    /// The length of a variable-length value cannot be read.
    ValueVarint,
    /// A variable-length value runs past the end of the data.
    ValueTruncated,
    /// A column page starts behind its own end.
    PageStart,
    /// A column page ends within its null bitmap.
    PageNullBitmap,
    /// A column page ends within its dictionary indices.
    PageDictIndices,
    /// A column page ends within its fixed-width values.
    PagePlainFixed,
    /// A column page ends within its variable-length values.
    PagePlainVariable,
    /// A column page ends within a dictionary entry.
    PageTruncated,
    /// A dictionary index that has no entry.
    CorruptDictIndex,
    /// A decimal of more than sixteen bytes.
    DecimalTooWide,
    /// Stored text that is not UTF-8.
    CorruptText,
    /// Statistics name a column that the schema lacks.
    StatsColumnIndex,
    /// Statistics count more nulls than there are rows.
    StatsNullCount,
    /// Statistics end within a fixed-width value.
    StatsFixedEof,
    /// Statistics end within a variable-length value.
    StatsVariableEof,
    /// A file shorter than its footer.
    FileTooSmall,
    /// A file that does not end in the magic bytes.
    BadMagic,
    /// A file of another format version.
    UnsupportedVersion,
    /// Footer offsets that contradict each other or the file length.
    FooterOffsets,
    /// A compression byte in a file that is not known.
    UnknownCompression,
    /// Compressed data that cannot be decompressed.
    Decompress,
    /// The compressor failed.
    Compress,
    /// A schema block that ends too early.
    SchemaTruncated,
    /// A column name that is not UTF-8.
    SchemaName,
    /// A column assigned to a bucket that does not exist.
    SchemaBucket,
    /// Bytes behind the last column of a schema block.
    SchemaTrailing,
    /// The footer and the schema disagree on the number of buckets.
    NumBucketsMismatch,
    /// A file without buckets.
    ZeroBuckets,
    /// A row group lists more buckets than there are.
    NonEmptyCount,
    /// A row group index entry that is cut off or names no bucket.
    IndexCorrupt,
    /// A row group lists a bucket twice.
    DuplicateBucket,
    /// Bucket sizes that describe no layout.
    BadLayout,
    /// A bucket's end does not fit in 64 bits.
    BucketOverflow,
    /// A bucket reaches into the schema block.
    BucketPastSchema,
    /// Bytes behind the last row group of the index.
    TrailingIndex,
    /// A row group that the file does not have.
    RowGroupRange,
    /// A projected column that the schema does not have.
    ColumnRange,
    /// A projected column name that the schema does not have.
    UnknownColumn,
    /// A paged bucket in a file that is not compressed with zstd.
    PagedNeedsZstd,
    /// A paged bucket smaller than its directory.
    PagedDirectorySize,
    /// A paged bucket whose directory and slots do not add up to its size.
    PagedDirectoryMismatch,
    /// Page content without its two header bytes.
    PageContentShort,
    /// Page content with an encoding that is not known.
    UnknownEncoding,
    /// Page content that ends within its constant.
    PageConstTruncated,
    /// A number that does not fit in the 32 bits of its field.
    SizeOverflow,
    /// A write to a writer that was closed.
    WriterClosed,
    /// A batch with another number of columns than the schema.
    ColumnCount,
    /// A null in a column that is not nullable.
    NonNullable,
    /// A compression byte to write that is not known.
    WriterCompression,
    /// Two columns of the same name.
    DuplicateColumn,
    /// A time zone without a type that has one, or the other way round.
    TimezoneMismatch,
    /// A range that reaches behind its buffer.
    RangeOutOfBounds,
    /// A null that was read in a column that is not nullable.
    BatchNonNullable,
    /// The columns of a batch and its fields are not equally many.
    BatchColumns,
    /// A column of a batch that has another number of rows than the batch.
    BatchLengths,
    /// The underlying file failed.
    Io(Fault),
}

impl Error {
    /// The kind of this error.
    pub open spec fn spec_kind(self) -> ErrorKind {
        match self {
            Error::VarintEof | Error::TypeHeaderEof | Error::TimezoneEof | Error::StatsFixedEof
            | Error::StatsVariableEof => ErrorKind::UnexpectedEof,
            Error::UnsupportedType | Error::DecimalPrecision | Error::UnsupportedTimestampUnit
            | Error::ColumnTypeMismatch | Error::LegacyChildNull | Error::LegacyInvalidNanos
            | Error::TextNotUtf8
            | Error::RowGroupRange | Error::ColumnRange | Error::UnknownColumn
            | Error::SizeOverflow | Error::WriterClosed | Error::ColumnCount | Error::NonNullable
            | Error::WriterCompression | Error::DuplicateColumn | Error::TimezoneMismatch
            | Error::RangeOutOfBounds => ErrorKind::InvalidInput,
            Error::Compress | Error::BatchNonNullable | Error::BatchColumns
            | Error::BatchLengths => ErrorKind::Other,
            Error::Io(fault) => fault.kind,
            _ => ErrorKind::InvalidData,
        }
    }

    /// Returns the kind of this error.
    pub fn kind(&self) -> (k: ErrorKind)
        ensures
            k == self.spec_kind(),
    {
        match *self {
            Error::VarintEof | Error::TypeHeaderEof | Error::TimezoneEof | Error::StatsFixedEof
            | Error::StatsVariableEof => ErrorKind::UnexpectedEof,
            Error::UnsupportedType | Error::DecimalPrecision | Error::UnsupportedTimestampUnit
            | Error::ColumnTypeMismatch | Error::LegacyChildNull | Error::LegacyInvalidNanos
            | Error::TextNotUtf8
            | Error::RowGroupRange | Error::ColumnRange | Error::UnknownColumn
            | Error::SizeOverflow | Error::WriterClosed | Error::ColumnCount | Error::NonNullable
            | Error::WriterCompression | Error::DuplicateColumn | Error::TimezoneMismatch
            | Error::RangeOutOfBounds => ErrorKind::InvalidInput,
            Error::Compress | Error::BatchNonNullable | Error::BatchColumns
            | Error::BatchLengths => ErrorKind::Other,
            Error::Io(fault) => fault.kind,
            _ => ErrorKind::InvalidData,
        }
    }
}

impl Error {
    /// What went wrong, in words.
    pub open spec fn spec_message(self) -> Seq<char> {
        match self {
            Error::VarintEof => "varint: unexpected end of data"@,
            Error::VarintOverflow => "varint: overflow"@,
            Error::InvalidNanosOfMilli => "invalid nanos_of_milli"@,
            Error::TimestampOverflow => "timestamp ns overflow"@,
            Error::TypeHeaderEof => "type: not enough bytes for type header"@,
            Error::TimezoneEof => "type: not enough bytes for timezone string"@,
            Error::TimezoneUtf8 => "type: invalid UTF-8 timezone"@,
            Error::UnknownTypeTag => "unknown type tag"@,
            Error::UnsupportedType => "unsupported data type"@,
            Error::DecimalPrecision => "decimal precision must be 1..38"@,
            Error::UnsupportedTimestampUnit => "unsupported timestamp unit"@,
            Error::ColumnTypeMismatch => "cell does not match the column's data type"@,
            Error::LegacyChildNull => "legacy timestamp nanos has null child for a non-null parent row"@,
            Error::LegacyInvalidNanos => "legacy timestamp nanos has invalid nanos_of_milli"@,
            Error::TextNotUtf8 => "text is not valid UTF-8"@,
            Error::BucketTruncated => "bucket data truncated"@,
            Error::ValueVarint => "truncated varint in variable-length value"@,
            Error::ValueTruncated => "buffer truncated in variable-length value"@,
            Error::PageStart => "column page data start out of bounds"@,
            Error::PageNullBitmap => "column page truncated: null bitmap"@,
            Error::PageDictIndices => "column page truncated: dict bit-packed data"@,
            Error::PagePlainFixed => "column page truncated: plain fixed-width data"@,
            Error::PagePlainVariable => "column page truncated: plain variable-width data"@,
            Error::PageTruncated => "column page truncated"@,
            Error::CorruptDictIndex => "corrupt dict index"@,
            Error::DecimalTooWide => "decimal wider than 16 bytes"@,
            Error::CorruptText => "stored text is not valid UTF-8"@,
            Error::StatsColumnIndex => "stats: column_index out of range"@,
            Error::StatsNullCount => "stats: null_count exceeds num_rows"@,
            Error::StatsFixedEof => "stats: not enough data for fixed value"@,
            Error::StatsVariableEof => "stats: not enough data for variable value"@,
            Error::FileTooSmall => "file too small"@,
            Error::BadMagic => "bad magic bytes"@,
            Error::UnsupportedVersion => "unsupported version"@,
            Error::FooterOffsets => "corrupted footer offsets"@,
            Error::UnknownCompression => "unsupported compression"@,
            Error::Decompress => "decompression failed"@,
            Error::Compress => "compression failed"@,
            Error::SchemaTruncated => "schema block truncated"@,
            Error::SchemaName => "schema block: column name is not UTF-8"@,
            Error::SchemaBucket => "schema block: bucket out of range"@,
            Error::SchemaTrailing => "trailing bytes in schema block"@,
            Error::NumBucketsMismatch => "footer num_buckets does not match schema"@,
            Error::ZeroBuckets => "num_buckets must be > 0"@,
            Error::NonEmptyCount => "non_empty count exceeds num_buckets"@,
            Error::IndexCorrupt => "corrupted row group index"@,
            Error::DuplicateBucket => "duplicate bucket_id in row group index"@,
            Error::BadLayout => "invalid bucket layout"@,
            Error::BucketOverflow => "bucket offset overflow"@,
            Error::BucketPastSchema => "bucket data extends past schema block"@,
            Error::TrailingIndex => "trailing bytes in row group index"@,
            Error::RowGroupRange => "row group index out of range"@,
            Error::ColumnRange => "projected column index out of range"@,
            Error::UnknownColumn => "projected column not found"@,
            Error::PagedNeedsZstd => "paged bucket requires ZSTD compression"@,
            Error::PagedDirectorySize => "paged bucket: directory size exceeds total size"@,
            Error::PagedDirectoryMismatch => "paged bucket: directory and slots do not add up to the total size"@,
            Error::PageContentShort => "paged bucket: page_content too short"@,
            Error::UnknownEncoding => "paged bucket: unknown encoding"@,
            Error::PageConstTruncated => "paged bucket: page_content truncated at const value"@,
            Error::SizeOverflow => "value exceeds u32::MAX"@,
            Error::WriterClosed => "writer is already closed"@,
            Error::ColumnCount => "column count mismatch"@,
            Error::NonNullable => "non-nullable column has nulls in batch"@,
            Error::WriterCompression => "unsupported compression"@,
            Error::DuplicateColumn => "duplicate column name"@,
            Error::TimezoneMismatch => "timezone does not match the data type"@,
            Error::RangeOutOfBounds => "range out of bounds"@,
            Error::BatchNonNullable => "non-nullable column contains null values"@,
            Error::BatchColumns => "number of columns must match the fields of the batch"@,
            Error::BatchLengths => "all columns in a batch must have the same length"@,
            Error::Io(_) => "input/output error"@,
        }
    }

    /// Says what went wrong, in words.
    pub fn message(&self) -> (m: &'static str)
        ensures
            m@ == self.spec_message(),
    {
        match *self {
            Error::VarintEof => "varint: unexpected end of data",
            Error::VarintOverflow => "varint: overflow",
            Error::InvalidNanosOfMilli => "invalid nanos_of_milli",
            Error::TimestampOverflow => "timestamp ns overflow",
            Error::TypeHeaderEof => "type: not enough bytes for type header",
            Error::TimezoneEof => "type: not enough bytes for timezone string",
            Error::TimezoneUtf8 => "type: invalid UTF-8 timezone",
            Error::UnknownTypeTag => "unknown type tag",
            Error::UnsupportedType => "unsupported data type",
            Error::DecimalPrecision => "decimal precision must be 1..38",
            Error::UnsupportedTimestampUnit => "unsupported timestamp unit",
            Error::ColumnTypeMismatch => "cell does not match the column's data type",
            Error::LegacyChildNull => "legacy timestamp nanos has null child for a non-null parent row",
            Error::LegacyInvalidNanos => "legacy timestamp nanos has invalid nanos_of_milli",
            Error::TextNotUtf8 => "text is not valid UTF-8",
            Error::BucketTruncated => "bucket data truncated",
            Error::ValueVarint => "truncated varint in variable-length value",
            Error::ValueTruncated => "buffer truncated in variable-length value",
            Error::PageStart => "column page data start out of bounds",
            Error::PageNullBitmap => "column page truncated: null bitmap",
            Error::PageDictIndices => "column page truncated: dict bit-packed data",
            Error::PagePlainFixed => "column page truncated: plain fixed-width data",
            Error::PagePlainVariable => "column page truncated: plain variable-width data",
            Error::PageTruncated => "column page truncated",
            Error::CorruptDictIndex => "corrupt dict index",
            Error::DecimalTooWide => "decimal wider than 16 bytes",
            Error::CorruptText => "stored text is not valid UTF-8",
            Error::StatsColumnIndex => "stats: column_index out of range",
            Error::StatsNullCount => "stats: null_count exceeds num_rows",
            Error::StatsFixedEof => "stats: not enough data for fixed value",
            Error::StatsVariableEof => "stats: not enough data for variable value",
            Error::FileTooSmall => "file too small",
            Error::BadMagic => "bad magic bytes",
            Error::UnsupportedVersion => "unsupported version",
            Error::FooterOffsets => "corrupted footer offsets",
            Error::UnknownCompression => "unsupported compression",
            Error::Decompress => "decompression failed",
            Error::Compress => "compression failed",
            Error::SchemaTruncated => "schema block truncated",
            Error::SchemaName => "schema block: column name is not UTF-8",
            Error::SchemaBucket => "schema block: bucket out of range",
            Error::SchemaTrailing => "trailing bytes in schema block",
            Error::NumBucketsMismatch => "footer num_buckets does not match schema",
            Error::ZeroBuckets => "num_buckets must be > 0",
            Error::NonEmptyCount => "non_empty count exceeds num_buckets",
            Error::IndexCorrupt => "corrupted row group index",
            Error::DuplicateBucket => "duplicate bucket_id in row group index",
            Error::BadLayout => "invalid bucket layout",
            Error::BucketOverflow => "bucket offset overflow",
            Error::BucketPastSchema => "bucket data extends past schema block",
            Error::TrailingIndex => "trailing bytes in row group index",
            Error::RowGroupRange => "row group index out of range",
            Error::ColumnRange => "projected column index out of range",
            Error::UnknownColumn => "projected column not found",
            Error::PagedNeedsZstd => "paged bucket requires ZSTD compression",
            Error::PagedDirectorySize => "paged bucket: directory size exceeds total size",
            Error::PagedDirectoryMismatch => "paged bucket: directory and slots do not add up to the total size",
            Error::PageContentShort => "paged bucket: page_content too short",
            Error::UnknownEncoding => "paged bucket: unknown encoding",
            Error::PageConstTruncated => "paged bucket: page_content truncated at const value",
            Error::SizeOverflow => "value exceeds u32::MAX",
            Error::WriterClosed => "writer is already closed",
            Error::ColumnCount => "column count mismatch",
            Error::NonNullable => "non-nullable column has nulls in batch",
            Error::WriterCompression => "unsupported compression",
            Error::DuplicateColumn => "duplicate column name",
            Error::TimezoneMismatch => "timezone does not match the data type",
            Error::RangeOutOfBounds => "range out of bounds",
            Error::BatchNonNullable => "non-nullable column contains null values",
            Error::BatchColumns => "number of columns must match the fields of the batch",
            Error::BatchLengths => "all columns in a batch must have the same length",
            Error::Io(_) => "input/output error",
        }
    }
}

} // verus!
