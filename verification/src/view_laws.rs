//! What contracts say of cells, values and columns is all that there is to say of them: their
//! contents leave nothing out.

use crate::batch::RecordBatch;
use crate::layout::{BucketLayout, LayoutView, RowGroupMeta};
use crate::row_group;
use crate::schema::{ColumnMeta, MosaicSchema};
use crate::stats::ColumnStats;
use crate::types::Field;
use crate::values::{Cell, CellView, Value, ValueView};
use vstd::prelude::*;

verus! {

/// The content of a cell is its value, to the last bit.
pub proof fn lemma_cell_contents()
    ensures
        Cell::Null@ == CellView::Null,
        forall|x: bool| #[trigger] Cell::Boolean(x)@ == CellView::Boolean(x),
        forall|x: i8| #[trigger] Cell::Int8(x)@ == CellView::Int8(x),
        forall|x: i16| #[trigger] Cell::Int16(x)@ == CellView::Int16(x),
        forall|x: i32| #[trigger] Cell::Int32(x)@ == CellView::Int32(x),
        forall|x: i64| #[trigger] Cell::Int64(x)@ == CellView::Int64(x),
        forall|x: u32| #[trigger] Cell::Float32(x)@ == CellView::Float32(x),
        forall|x: u64| #[trigger] Cell::Float64(x)@ == CellView::Float64(x),
        forall|x: i32| #[trigger] Cell::Date32(x)@ == CellView::Date32(x),
        forall|x: i32| #[trigger] Cell::Time32(x)@ == CellView::Time32(x),
        forall|x: Vec<u8>| #[trigger] Cell::Utf8(x)@ == CellView::Utf8(x@),
        forall|x: Vec<u8>| #[trigger] Cell::Binary(x)@ == CellView::Binary(x@),
        forall|x: i128| #[trigger] Cell::Decimal128(x)@ == CellView::Decimal128(x),
        forall|x: i64| #[trigger] Cell::TimestampMillis(x)@ == CellView::TimestampMillis(x),
        forall|x: i64| #[trigger] Cell::TimestampMicros(x)@ == CellView::TimestampMicros(x),
        forall|x: i64| #[trigger] Cell::TimestampNanos(x)@ == CellView::TimestampNanos(x),
        forall|x: Option<i64>, y: Option<i32>| #[trigger] Cell::LegacyTimestampNanos(x, y)@ == CellView::LegacyTimestampNanos(x, y),
{
}

/// The content of a stored value is the value, to the last bit.
pub proof fn lemma_value_contents()
    ensures
        Value::Null@ == ValueView::Null,
        forall|x: bool| #[trigger] Value::Boolean(x)@ == ValueView::Boolean(x),
        forall|x: i8| #[trigger] Value::TinyInt(x)@ == ValueView::TinyInt(x),
        forall|x: i16| #[trigger] Value::SmallInt(x)@ == ValueView::SmallInt(x),
        forall|x: i32| #[trigger] Value::Integer(x)@ == ValueView::Integer(x),
        forall|x: i64| #[trigger] Value::BigInt(x)@ == ValueView::BigInt(x),
        forall|x: u32| #[trigger] Value::Float(x)@ == ValueView::Float(x),
        forall|x: u64| #[trigger] Value::Double(x)@ == ValueView::Double(x),
        forall|x: i32| #[trigger] Value::Date(x)@ == ValueView::Date(x),
        forall|x: i32| #[trigger] Value::Time(x)@ == ValueView::Time(x),
        forall|x: i64| #[trigger] Value::DecimalCompact(x)@ == ValueView::DecimalCompact(x),
        forall|x: Vec<u8>| #[trigger] Value::DecimalLarge(x)@ == ValueView::DecimalLarge(x@),
        forall|x: i64| #[trigger] Value::TimestampMillis(x)@ == ValueView::TimestampMillis(x),
        forall|x: i64| #[trigger] Value::TimestampMicros(x)@ == ValueView::TimestampMicros(x),
        forall|x: Vec<u8>| #[trigger] Value::String(x)@ == ValueView::String(x@),
        forall|x: Vec<u8>| #[trigger] Value::Bytes(x)@ == ValueView::Bytes(x@),
        forall|x: i64, y: i32|
            #[trigger] (Value::TimestampNanos { millis: x, nanos_of_milli: y })@ == (
            ValueView::TimestampNanos { millis: x, nanos_of_milli: y }),
{
}

/// The content of a field: its name, its type, whether it is nullable, and its time zone.
pub proof fn lemma_field_contents(f: Field)
    ensures
        f@.name == f.name@,
        f@.data_type == f.data_type,
        f@.nullable == f.nullable,
        f@.timezone is Some <==> f.timezone is Some,
        f.timezone is Some ==> f@.timezone->0 == f.timezone->0@,
{
}

/// The content of a column of a schema: that of its field, and its bucket.
pub proof fn lemma_column_contents(c: ColumnMeta)
    ensures
        c@.field.name == c.name@,
        c@.field.data_type == c.data_type,
        c@.field.nullable == c.nullable,
        c@.field.timezone is Some <==> c.timezone is Some,
        c.timezone is Some ==> c@.field.timezone->0 == c.timezone->0@,
        c@.bucket_id == c.bucket_id,
{
}

/// The content of a schema: all its columns, and how many buckets it has.
pub proof fn lemma_schema_contents(s: MosaicSchema)
    ensures
        s@.num_buckets == s.num_buckets,
        s@.columns.len() == s.columns@.len(),
        forall|i: int| 0 <= i < s.columns@.len() ==> #[trigger] s@.columns[i] == s.columns@[i]@,
{
}

/// The content of a batch: its fields, all cells of all its columns, and how many rows it has.
pub proof fn lemma_batch_contents(b: RecordBatch)
    ensures
        ({
            let v = row_group::batch_view(b);
            &&& v.num_rows == b.num_rows
            &&& v.fields.len() == b.fields@.len()
            &&& forall|i: int| 0 <= i < b.fields@.len() ==> #[trigger] v.fields[i] == b.fields@[i]@
            &&& v.columns.len() == b.columns@.len()
            &&& forall|i: int|
                0 <= i < b.columns@.len() ==> (#[trigger] v.columns[i]).len() == b.columns@[i]@.len()
            &&& forall|i: int, j: int|
                0 <= i < b.columns@.len() && 0 <= j < b.columns@[i]@.len()
                    ==> #[trigger] v.columns[i][j] == b.columns@[i]@[j]@
            &&& b.cells() == v.columns
            &&& b.types().len() == b.fields@.len()
            &&& forall|i: int|
                0 <= i < b.fields@.len() ==> #[trigger] b.types()[i] == b.fields@[i].data_type
        }),
{
}

/// The content of statistics: their column, their nulls and both bounds.
pub proof fn lemma_statistics_contents(t: ColumnStats)
    ensures
        t@.column_index == t.column_index,
        t@.null_count == t.null_count,
        t@.min is Some <==> t.min is Some,
        t.min is Some ==> t@.min->0 == t.min->0@,
        t@.max is Some <==> t.max is Some,
        t.max is Some ==> t@.max->0 == t.max->0@,
{
}

/// The content of what an index has of a row group.
pub proof fn lemma_group_contents(g: RowGroupMeta)
    ensures
        g@.num_rows == g.num_rows,
        g@.offsets == g.bucket_offsets@,
        g@.layouts.len() == g.bucket_layouts@.len(),
        forall|b: int|
            0 <= b < g.bucket_layouts@.len() ==> #[trigger] g@.layouts[b] == g.bucket_layouts@[b]@,
        g@.stats.len() == g.stats@.len(),
        forall|i: int| 0 <= i < g.stats@.len() ==> #[trigger] g@.stats[i] == g.stats@[i]@,
{
}

/// The content of how a bucket is stored.
pub proof fn lemma_layout_contents(a: usize, b: usize)
    ensures
        BucketLayout::Empty@ == LayoutView::Empty,
        (BucketLayout::Paged { total_size: a })@ == (LayoutView::Paged { total_size: a as nat }),
        (BucketLayout::Monolithic { compressed_size: a, uncompressed_size: b })@ == (
        LayoutView::Monolithic { compressed_size: a as nat, uncompressed_size: b as nat }),
{
}

} // verus!
