//! Which batches a writer takes: those whose columns and cells are of the schema's types,
//! whatever their values.

use crate::bucket_writer;
use crate::error::Error;
use crate::file_round_trip;
use crate::image;
use crate::round_trip;
use crate::schema;
use crate::schema::SchemaView;
use crate::session;
use crate::session::BatchCells;
use crate::types;
use crate::types::{DataType, TimeUnit};
use crate::values;
use crate::values::CellView;
use crate::writer;
use crate::writer::WriterState;
use vstd::prelude::*;
use vstd::utf8;

verus! {

/// A cell of its column's type is accepted whatever its value.
pub proof fn lemma_values_accepted()
    ensures
        forall|x: bool| #[trigger]
            values::cell_error(DataType::Boolean, CellView::Boolean(x)) is None,
        forall|x: i8| #[trigger]
            values::cell_error(DataType::Int8, CellView::Int8(x)) is None,
        forall|x: i16| #[trigger]
            values::cell_error(DataType::Int16, CellView::Int16(x)) is None,
        forall|x: i32| #[trigger]
            values::cell_error(DataType::Int32, CellView::Int32(x)) is None,
        forall|x: i64| #[trigger]
            values::cell_error(DataType::Int64, CellView::Int64(x)) is None,
        forall|x: u32| #[trigger]
            values::cell_error(DataType::Float32, CellView::Float32(x)) is None,
        forall|x: u64| #[trigger]
            values::cell_error(DataType::Float64, CellView::Float64(x)) is None,
        forall|x: i32| #[trigger]
            values::cell_error(DataType::Date32, CellView::Date32(x)) is None,
        forall|unit: TimeUnit, x: i32| #[trigger]
            values::cell_error(DataType::Time32(unit), CellView::Time32(x)) is None,
        forall|x: Seq<u8>| #[trigger]
            values::cell_error(DataType::Binary, CellView::Binary(x)) is None,
        forall|precision: u8, scale: i8, x: i128| #[trigger]
            values::cell_error(DataType::Decimal128(precision, scale), CellView::Decimal128(x)) is None,
        forall|zoned: bool, x: i64| #[trigger]
            values::cell_error(DataType::Timestamp(TimeUnit::Millisecond, zoned), CellView::TimestampMillis(x)) is None,
        forall|zoned: bool, x: i64| #[trigger]
            values::cell_error(DataType::Timestamp(TimeUnit::Microsecond, zoned), CellView::TimestampMicros(x)) is None,
        forall|zoned: bool, x: i64| #[trigger]
            values::cell_error(DataType::Timestamp(TimeUnit::Nanosecond, zoned), CellView::TimestampNanos(x)) is None,
{
}

/// Text is accepted exactly where it is UTF-8.
pub proof fn lemma_text_accepted(b: Seq<u8>)
    ensures
        values::cell_error(DataType::Utf8, CellView::Utf8(b)) == if utf8::valid_utf8(b) {
            None
        } else {
            Some(Error::TextNotUtf8)
        },
{
}

/// A timestamp in milliseconds and nanoseconds is accepted exactly where both are there and
/// the nanoseconds are fewer than a millisecond has.
pub proof fn lemma_pairs_accepted(m: Option<i64>, n: Option<i32>)
    ensures
        ({
            let e = values::cell_error(
                DataType::LegacyTimestampNanos,
                CellView::LegacyTimestampNanos(m, n),
            );
            &&& e is None <==> m is Some && n is Some && 0 <= n->0 < 1_000_000
            &&& m is None || n is None ==> e == Some(Error::LegacyChildNull)
            &&& e is Some && m is Some && n is Some ==> e == Some(Error::LegacyInvalidNanos)
        }),
{
}

/// Columns of all types take nulls, except of types that are not stored.
pub proof fn lemma_nulls_accepted(dt: DataType)
    ensures
        values::cell_error(dt, CellView::Null) == if dt == DataType::Unsupported || (dt is Timestamp
            && dt->Timestamp_0 == TimeUnit::Second) {
            Some(Error::UnsupportedType)
        } else {
            None
        },
{
}

/// A cell of another type than its column's is refused as such.
pub proof fn lemma_other_cells_refused(c: CellView)
    requires
        c != CellView::Null,
    ensures
        !(c is Boolean) ==> values::cell_error(DataType::Boolean, c) == Some(
            Error::ColumnTypeMismatch,
        ),
        !(c is Int8) ==> values::cell_error(DataType::Int8, c) == Some(
            Error::ColumnTypeMismatch,
        ),
        !(c is Int16) ==> values::cell_error(DataType::Int16, c) == Some(
            Error::ColumnTypeMismatch,
        ),
        !(c is Int32) ==> values::cell_error(DataType::Int32, c) == Some(
            Error::ColumnTypeMismatch,
        ),
        !(c is Int64) ==> values::cell_error(DataType::Int64, c) == Some(
            Error::ColumnTypeMismatch,
        ),
        !(c is Float32) ==> values::cell_error(DataType::Float32, c) == Some(
            Error::ColumnTypeMismatch,
        ),
        !(c is Float64) ==> values::cell_error(DataType::Float64, c) == Some(
            Error::ColumnTypeMismatch,
        ),
        !(c is Date32) ==> values::cell_error(DataType::Date32, c) == Some(
            Error::ColumnTypeMismatch,
        ),
        !(c is Time32) ==> forall|unit: TimeUnit| #[trigger]
            values::cell_error(DataType::Time32(unit), c) == Some(Error::ColumnTypeMismatch),
        !(c is Binary) ==> values::cell_error(DataType::Binary, c) == Some(
            Error::ColumnTypeMismatch,
        ),
        !(c is Decimal128) ==> forall|precision: u8, scale: i8| #[trigger]
            values::cell_error(DataType::Decimal128(precision, scale), c) == Some(Error::ColumnTypeMismatch),
        !(c is TimestampMillis) ==> forall|zoned: bool| #[trigger]
            values::cell_error(DataType::Timestamp(TimeUnit::Millisecond, zoned), c) == Some(Error::ColumnTypeMismatch),
        !(c is TimestampMicros) ==> forall|zoned: bool| #[trigger]
            values::cell_error(DataType::Timestamp(TimeUnit::Microsecond, zoned), c) == Some(Error::ColumnTypeMismatch),
        !(c is TimestampNanos) ==> forall|zoned: bool| #[trigger]
            values::cell_error(DataType::Timestamp(TimeUnit::Nanosecond, zoned), c) == Some(Error::ColumnTypeMismatch),
        !(c is Utf8) ==> values::cell_error(DataType::Utf8, c) == Some(Error::ColumnTypeMismatch),
        !(c is LegacyTimestampNanos) ==> values::cell_error(DataType::LegacyTimestampNanos, c)
            == Some(Error::ColumnTypeMismatch),
{
}

/// Whether a cell is one that a column of the type is meant for. Decimals of at most 18
/// digits have 64 bits.
pub open spec fn is_of(dt: DataType, c: CellView) -> bool {
    match dt {
        DataType::Boolean => c is Boolean,
        DataType::Int8 => c is Int8,
        DataType::Int16 => c is Int16,
        DataType::Int32 => c is Int32,
        DataType::Int64 => c is Int64,
        DataType::Float32 => c is Float32,
        DataType::Float64 => c is Float64,
        DataType::Date32 => c is Date32,
        DataType::Time32(_) => c is Time32,
        DataType::Utf8 => c is Utf8 && utf8::valid_utf8(c->Utf8_0) && c->Utf8_0.len() <= u32::MAX,
        DataType::Binary => c is Binary && c->Binary_0.len() <= u32::MAX,
        DataType::Decimal128(p, _) => c is Decimal128 && (p <= 18 ==> i64::MIN <= c->Decimal128_0
            <= i64::MAX),
        DataType::Timestamp(TimeUnit::Millisecond, _) => c is TimestampMillis,
        DataType::Timestamp(TimeUnit::Microsecond, _) => c is TimestampMicros,
        DataType::Timestamp(TimeUnit::Nanosecond, _) => c is TimestampNanos,
        DataType::LegacyTimestampNanos => c matches CellView::LegacyTimestampNanos(
            Some(_),
            Some(n),
        ) && 0 <= n < 1_000_000,
        _ => false,
    }
}

/// Whether the columns of a batch have as many cells as there are rows, nulls only where they
/// are nullable, and otherwise cells of their types.
pub open spec fn is_typed(s: SchemaView, b: BatchCells) -> bool {
    &&& b.types.len() == s.columns.len()
    &&& b.columns.len() == s.columns.len()
    &&& forall|c: int| 0 <= c < s.columns.len() ==> (#[trigger] b.columns[c]).len() == b.num_rows
    &&& forall|c: int|
        0 <= c < s.columns.len() ==> match (#[trigger] b.types[c], s.columns[c].field.data_type) {
            (DataType::Decimal128(_, _), DataType::Decimal128(_, _)) => true,
            (DataType::Timestamp(u, _), DataType::Timestamp(v, _)) => u == v,
            (x, y) => x == y,
        }
    &&& forall|c: int, i: int|
        0 <= c < s.columns.len() && 0 <= i < b.num_rows ==> if (#[trigger] b.columns[c][i])
            == CellView::Null {
            s.columns[c].field.nullable
        } else {
            is_of(s.columns[c].field.data_type, b.columns[c][i])
        }
}

/// What is of a column's type loses nothing when it is stored.
proof fn lemma_typed_column(s: SchemaView, b: BatchCells, c: int)
    requires
        s.writable(),
        is_typed(s, b),
        0 <= c < s.columns.len(),
    ensures
        round_trip::exact_column(s.columns[c].field.data_type, b.columns[c]),
{
    assert(schema::writable_column(s.columns[c], s.num_buckets));
    let dt = s.columns[c].field.data_type;
    let rows = b.columns[c];
    assert forall|i: int| 0 <= i < rows.len() implies values::cell_error(dt, #[trigger] rows[i]) is None
        && values::cell_fits(rows[i]) && values::exact_cell(dt, rows[i]) by {
        assert(b.columns[c][i] == rows[i]);
    }
}

/// A batch whose cells are of its columns' types fits.
pub proof fn lemma_typed_fits(s: SchemaView, b: BatchCells)
    requires
        s.writable(),
        is_typed(s, b),
    ensures
        session::fits(s, b),
{
    assert forall|c: int| 0 <= c < b.columns.len() implies round_trip::exact_column(
        s.columns[c].field.data_type,
        #[trigger] b.columns[c],
    ) by {
        lemma_typed_column(s, b, c);
    }
    let nullable = writer::schema_nullable(s);
    if crate::batch::misplaced_null(nullable, b.columns) {
        let c = choose|c: int|
            0 <= c < nullable.len() && 0 <= c < b.columns.len() && !(#[trigger] nullable[c])
                && crate::batch::has_null(b.columns[c]);
        let i = choose|i: int|
            0 <= i < b.columns[c].len() && #[trigger] b.columns[c][i] == CellView::Null;
        assert(b.columns[c][i] == CellView::Null);
    }
    assert(file_round_trip::lossless(s, b.columns));
}

/// A writer that is not closed takes every batch whose cells are of its columns' types, as
/// long as its rows can be counted.
pub proof fn lemma_typed_accepted(st: WriterState, b: BatchCells)
    requires
        st.schema.writable(),
        !st.closed,
        is_typed(st.schema, b),
        st.data.num_rows + b.num_rows <= usize::MAX,
    ensures
        writer::batch_error(st, b.types, b.columns, b.num_rows) is None,
{
    lemma_typed_fits(st.schema, b);
    session::lemma_fits_accepted(st, b);
}

/// A batch of another number of columns, and one with a null in a column that is not
/// nullable, is refused.
pub proof fn lemma_misshapen_refused(
    st: WriterState,
    declared: Seq<DataType>,
    cols: Seq<Seq<CellView>>,
    num_rows: nat,
)
    ensures
        st.closed ==> writer::batch_error(st, declared, cols, num_rows) == Some(
            Error::WriterClosed,
        ),
        !st.closed && cols.len() != st.schema.columns.len() ==> writer::batch_error(
            st,
            declared,
            cols,
            num_rows,
        ) == Some(Error::ColumnCount),
        !st.closed && cols.len() == st.schema.columns.len() && (exists|c: int, i: int|
            0 <= c < cols.len() && 0 <= i < cols[c].len() && #[trigger] cols[c][i]
                == CellView::Null && !st.schema.columns[c].field.nullable) ==> writer::batch_error(
            st,
            declared,
            cols,
            num_rows,
        ) == Some(Error::NonNullable),
{
    if !st.closed && cols.len() == st.schema.columns.len() && (exists|c: int, i: int|
        0 <= c < cols.len() && 0 <= i < cols[c].len() && #[trigger] cols[c][i] == CellView::Null
            && !st.schema.columns[c].field.nullable) {
        let (c, i) = choose|c: int, i: int|
            0 <= c < cols.len() && 0 <= i < cols[c].len() && #[trigger] cols[c][i]
                == CellView::Null && !st.schema.columns[c].field.nullable;
        assert(crate::batch::has_null(cols[c]));
        assert(!writer::schema_nullable(st.schema)[c]);
    }
}

/// A batch that is taken has in each column only nulls and cells of the column's type.
pub proof fn lemma_taken_typed(
    st: WriterState,
    declared: Seq<DataType>,
    cols: Seq<Seq<CellView>>,
    num_rows: nat,
    c: int,
    i: int,
)
    requires
        st.schema.writable(),
        num_rows > 0,
        0 <= c < st.schema.columns.len(),
        writer::batch_error(st, declared, cols, num_rows) is None,
        0 <= i < cols[c].len(),
    ensures
        !st.closed,
        cols.len() == st.schema.columns.len(),
        ({
            let dt = st.schema.columns[c].field.data_type;
            let cell = cols[c][i];
            &&& cell == CellView::Null ==> st.schema.columns[c].field.nullable
            &&& cell == CellView::Null || is_of(dt, cell) || (dt is Decimal128 && cell is Decimal128)
                || (dt is Binary && cell is Binary) || (dt is Utf8 && cell is Utf8
                && utf8::valid_utf8(cell->Utf8_0))
            &&& (declared[c] is Decimal128 && dt is Decimal128) || (declared[c] is Timestamp
                && dt is Timestamp && declared[c]->Timestamp_0 == dt->Timestamp_0) || declared[c] == dt
        }),
{
    let s = st.schema;
    lemma_misshapen_refused(st, declared, cols, num_rows);
    if !types::same_cells(s.columns[c].field.data_type, declared[c]) {
        writer::lemma_mistyped_refused(st, declared, cols, num_rows, c);
    }
    assert(schema::writable_column(s.columns[c], s.num_buckets));
    let b = s.columns[c].bucket_id;
    let members = image::bucket_members(s, b as int);
    schema::lemma_members(s.columns, b, s.columns.len());
    assert(members.contains(c as usize));
    let k = members.index_of(c as usize);
    assert(members[k] == c);
    let dts = image::bucket_types(s, b as int);
    let part = image::bucket_part(s, cols, b as int);
    lemma_bucket_accepted(s, declared, cols, num_rows, b, s.num_buckets);
    lemma_agreeing_most(dts, image::bucket_declared(s, declared, b as int), dts.len());
    assert(part.take(part.len() as int) =~= part);
    bucket_writer::lemma_columns_error(dts, part);
    assert(part[k] == cols[c]);
    bucket_writer::lemma_column_error(dts[k], part[k]);
    assert(values::cell_error(dts[k], part[k][i]) is None);
}

proof fn lemma_agreeing_most(dts: Seq<DataType>, declared: Seq<DataType>, n: nat)
    ensures
        image::agreeing(dts, declared, n) <= n,
    decreases n,
{
    if n > 0 {
        lemma_agreeing_most(dts, declared, (n - 1) as nat);
    }
}

proof fn lemma_bucket_accepted(
    s: SchemaView,
    declared: Seq<DataType>,
    cols: Seq<Seq<CellView>>,
    num_rows: nat,
    b: nat,
    n: nat,
)
    requires
        b < n,
        image::buckets_error(s, declared, cols, num_rows, n) is None,
    ensures
        image::bucket_error(
            image::bucket_types(s, b as int),
            image::bucket_declared(s, declared, b as int),
            image::bucket_part(s, cols, b as int),
            num_rows,
        ) is None,
    decreases n,
{
    if b < n - 1 {
        lemma_bucket_accepted(s, declared, cols, num_rows, b, (n - 1) as nat);
    }
}

} // verus!
