//! A columnar file format: columns are grouped into buckets, each bucket is
//! encoded column by column, and a schema block, a row group index and a footer
//! close the file.

pub mod access_laws;
pub mod batch;
pub mod batch_laws;
pub mod bits;
pub mod blocks;
pub mod bucket_laws;
pub mod bucket_reader;
pub mod bucket_writer;
pub mod bytes;
pub mod corruption_laws;
pub mod decoding;
pub mod encoding;
pub mod error;
pub mod file_round_trip;
pub mod format;
pub mod format_laws;
pub mod image;
pub mod input;
pub mod layout;
pub mod order_laws;
pub mod projection;
pub mod reader;
pub mod reading_laws;
pub mod round_trip;
pub mod row_group;
pub mod schema;
pub mod schema_laws;
pub mod selection_laws;
pub mod session;
pub mod size_laws;
pub mod stats;
pub mod types;
pub mod values;
pub mod varint;
pub mod view_laws;
pub mod writer;
pub mod writing_laws;
