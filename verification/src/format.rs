//! The constants of the file format.

use vstd::prelude::*;

verus! {

/// The bytes that close a file.
pub const FOOTER_SIZE: usize = 32;

/// The bytes at the very end of a file.
pub const MAGIC: [u8; 4] = [77, 79, 83, 65];

/// The format version that is written and read.
pub const VERSION: u8 = 1;

/// Nothing is compressed.
pub const COMPRESSION_NONE: u8 = 0;

/// Buckets, pages and the schema are zstd frames.
pub const COMPRESSION_ZSTD: u8 = 1;

/// A column without any value.
pub const ENCODING_ALL_NULL: u8 = 0;

/// A column whose values are all the same.
pub const ENCODING_CONST: u8 = 1;

/// A column of indices into a table of its distinct values.
pub const ENCODING_DICT: u8 = 2;

/// A column of values one after the other.
pub const ENCODING_PLAIN: u8 = 3;

pub const DEFAULT_ZSTD_LEVEL: i32 = 3;

pub const DEFAULT_NUM_BUCKETS: usize = 100;

pub const DEFAULT_ROW_GROUP_MAX_SIZE: u64 = 268_435_456;

pub const DEFAULT_DICT_MAX_TOTAL_BYTES: usize = 32_768;

pub const DEFAULT_DICT_MAX_ENTRIES: usize = 255;

pub const DEFAULT_PAGE_SIZE_THRESHOLD: usize = 32_768;

} // verus!
