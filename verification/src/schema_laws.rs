//! What a schema is made of: the fields as they were given, spread evenly over the buckets.

use crate::error::Error;
use crate::schema;
use crate::schema::ColumnMetaView;
use crate::types;
use crate::types::{DataType, FieldView, TimeUnit};
use vstd::prelude::*;
use vstd::utf8;

verus! {

/// The columns of a schema are the fields that it is made from: their names, their types with
/// all parameters, whether they are nullable, and their time zones.
pub proof fn lemma_fields_kept(fields: Seq<FieldView>, requested: nat)
    ensures
        schema::schema_of(fields, requested).columns.len() == fields.len(),
        forall|i: int|
            0 <= i < fields.len() ==> (#[trigger] schema::schema_of(
                fields,
                requested,
            ).columns[i]).field == fields[i],
{
}

/// There are as many buckets as were asked for, but at least one and no more than columns.
pub proof fn lemma_bucket_number(fields: Seq<FieldView>, requested: nat)
    ensures
        schema::schema_of(fields, requested).num_buckets >= 1,
        schema::schema_of(fields, requested).num_buckets == requested || requested == 0
            || schema::schema_of(fields, requested).num_buckets < requested,
        1 <= requested <= fields.len() ==> schema::schema_of(fields, requested).num_buckets
            == requested,
        requested > fields.len() >= 1 ==> schema::schema_of(fields, requested).num_buckets
            == fields.len(),
        requested == 0 || fields.len() == 0 ==> schema::schema_of(fields, requested).num_buckets
            == 1,
{
}

/// Columns take turns among the buckets: the first is in the first bucket, each is in the
/// bucket behind that of the column before it, and the first bucket follows the last.
pub proof fn lemma_buckets_in_turn(fields: Seq<FieldView>, requested: nat, i: int)
    requires
        0 <= i < fields.len(),
    ensures
        ({
            let s = schema::schema_of(fields, requested);
            &&& s.columns[i].bucket_id < s.num_buckets
            &&& s.columns[0].bucket_id == 0
            &&& i > 0 ==> s.columns[i].bucket_id == if s.columns[i - 1].bucket_id + 1
                == s.num_buckets {
                0
            } else {
                s.columns[i - 1].bucket_id + 1
            }
        }),
{
    let n = schema::schema_of(fields, requested).num_buckets as int;
    assert(n >= 1);
    if i > 0 {
        let q = (i - 1) / n;
        let r = (i - 1) % n;
        assert(i - 1 == n * q + r) by (nonlinear_arith)
            requires
                n >= 1,
                q == (i - 1) / n,
                r == (i - 1) % n,
        ;
        assert(0 <= r < n) by (nonlinear_arith)
            requires
                n >= 1,
                r == (i - 1) % n,
        ;
        if r + 1 == n {
            assert(i == n * (q + 1)) by (nonlinear_arith)
                requires
                    i - 1 == n * q + r,
                    r + 1 == n,
            ;
            assert(i % n == 0) by (nonlinear_arith)
                requires
                    i == n * (q + 1),
                    n >= 1,
            ;
        } else {
            assert(i % n == r + 1) by (nonlinear_arith)
                requires
                    i == n * q + (r + 1),
                    0 <= r + 1 < n,
            ;
        }
    }
    assert(i % n < n) by (nonlinear_arith)
        requires
            n >= 1,
    ;
    assert(0int % n == 0) by (nonlinear_arith)
        requires
            n >= 1,
    ;
}

/// Columns of all types are stored, except times of day that are not in milliseconds,
/// timestamps in seconds, decimals without digits or of more than 38, and what no column
/// has.
pub proof fn lemma_stored_types(dt: DataType)
    ensures
        types::valid_type(dt) is Ok <==> match dt {
            DataType::Time32(u) => u == TimeUnit::Millisecond,
            DataType::Timestamp(u, _) => u != TimeUnit::Second,
            DataType::Decimal128(p, _) => 1 <= p <= 38,
            DataType::Unsupported => false,
            DataType::Boolean | DataType::Int8 | DataType::Int16 | DataType::Int32
            | DataType::Int64 | DataType::Float32 | DataType::Float64 | DataType::Date32
            | DataType::Utf8 | DataType::Binary | DataType::LegacyTimestampNanos => true,
        },
        types::valid_type(dt) is Err ==> types::valid_type(dt)->Err_0 == if dt is Decimal128 {
            Error::DecimalPrecision
        } else if dt is Timestamp {
            Error::UnsupportedTimestampUnit
        } else {
            Error::UnsupportedType
        },
{
}

/// Whether a field can be a column: its type is stored, it has a time zone exactly where its
/// type says so, and its texts are not too long.
pub open spec fn is_storable_field(f: FieldView) -> bool {
    &&& types::valid_type(f.data_type) is Ok
    &&& f.timezone is Some <==> f.data_type is Timestamp && f.data_type->Timestamp_1
    &&& utf8::encode_utf8(f.name).len() <= u32::MAX
    &&& f.timezone is Some ==> utf8::encode_utf8(f.timezone->0).len() <= u32::MAX
}

/// A schema is made of fields exactly where each of them can be a column and no two have the
/// same name.
pub proof fn lemma_fields_accepted(fields: Seq<FieldView>, n: nat)
    requires
        n <= fields.len(),
    ensures
        schema::fields_error(fields, n) is None <==> {
            &&& forall|i: int| 0 <= i < n ==> is_storable_field(#[trigger] fields[i])
            &&& forall|i: int, j: int|
                0 <= i < j < n ==> (#[trigger] fields[i]).name != (#[trigger] fields[j]).name
        },
    decreases n,
{
    if n > 0 {
        let m = (n - 1) as nat;
        lemma_fields_accepted(fields, m);
        if schema::fields_error(fields, n) is None {
            assert forall|i: int, j: int| 0 <= i < j < n implies (#[trigger] fields[i]).name != (
            #[trigger] fields[j]).name by {}
        }
    }
}

/// The first field that is wrong decides the error, and what is wrong with it first.
pub proof fn lemma_first_field_error(fields: Seq<FieldView>, n: nat, i: int)
    requires
        n <= fields.len(),
        0 <= i < n,
        forall|j: int| 0 <= j < i ==> is_storable_field(#[trigger] fields[j]),
        forall|j: int, k: int|
            0 <= j < k < i ==> (#[trigger] fields[j]).name != (#[trigger] fields[k]).name,
    ensures
        types::valid_type(fields[i].data_type) is Err ==> schema::fields_error(fields, n) == Some(
            types::valid_type(fields[i].data_type)->Err_0,
        ),
        types::valid_type(fields[i].data_type) is Ok && (fields[i].timezone is Some) != (
        fields[i].data_type is Timestamp && fields[i].data_type->Timestamp_1)
            ==> schema::fields_error(fields, n) == Some(Error::TimezoneMismatch),
        is_storable_field(fields[i]) && (exists|j: int|
            0 <= j < i && (#[trigger] fields[j]).name == fields[i].name) ==> schema::fields_error(
            fields,
            n,
        ) == Some(Error::DuplicateColumn),
    decreases n,
{
    if n == i + 1 {
        lemma_fields_accepted(fields, i as nat);
    } else {
        lemma_first_field_error(fields, (n - 1) as nat, i);
    }
}

/// A column that is read back from a schema block keeps its type, and one that was marked as
/// a legacy timestamp becomes one again.
pub proof fn lemma_marked(dt: DataType)
    ensures
        schema::marked_type(dt, false) == dt,
        schema::marked_type(types::stored_type(dt), dt == DataType::LegacyTimestampNanos) == dt,
{
}

/// How many bytes a stored value takes, where that is the same for all values of the type.
pub proof fn lemma_widths(dt: DataType)
    ensures
        types::width(dt) == match dt {
            DataType::Boolean | DataType::Int8 => 1int,
            DataType::Int16 => 2,
            DataType::Int32 | DataType::Date32 | DataType::Time32(_) | DataType::Float32 => 4,
            DataType::Int64 | DataType::Float64 => 8,
            DataType::Timestamp(TimeUnit::Millisecond, _) => 8,
            DataType::Timestamp(TimeUnit::Microsecond, _) => 8,
            DataType::Timestamp(TimeUnit::Nanosecond, _) => 12,
            DataType::LegacyTimestampNanos => 12,
            DataType::Decimal128(p, _) => if p <= 18 {
                8
            } else {
                -1
            },
            _ => -1,
        },
{
}

/// The numbers by which a file names the types.
pub proof fn lemma_tags(unit: TimeUnit, precision: u8, scale: i8)
    ensures
        types::type_tag(DataType::Boolean) == 0,
        types::type_tag(DataType::Int8) == 1,
        types::type_tag(DataType::Int16) == 2,
        types::type_tag(DataType::Int32) == 3,
        types::type_tag(DataType::Int64) == 4,
        types::type_tag(DataType::Float32) == 5,
        types::type_tag(DataType::Float64) == 6,
        types::type_tag(DataType::Date32) == 7,
        types::type_tag(DataType::Utf8) == 10,
        types::type_tag(DataType::Binary) == 13,
        types::type_tag(DataType::Decimal128(precision, scale)) == 14,
        types::type_tag(DataType::Time32(unit)) == 15,
        types::type_tag(DataType::Timestamp(unit, false)) == 16,
        types::type_tag(DataType::LegacyTimestampNanos) == 16,
        types::type_tag(DataType::Timestamp(unit, true)) == 17,
{
}

/// A precision of up to three digits behind the second stands for milliseconds, one of up to
/// six for microseconds, and any other for nanoseconds.
pub proof fn lemma_units(precision: u32)
    ensures
        types::unit_for(precision) == TimeUnit::Millisecond <==> precision <= 3,
        types::unit_for(precision) == TimeUnit::Microsecond <==> 4 <= precision <= 6,
        types::unit_for(precision) == TimeUnit::Nanosecond <==> precision >= 7,
{
}

/// Milliseconds and nanoseconds are joined to the nanoseconds that both count, where those
/// have 64 bits.
pub proof fn lemma_joined(millis: i64, nanos: i32)
    ensures
        ({
            let r = types::joined(millis as int, nanos as int);
            let total = millis * 1_000_000 + nanos;
            &&& r is Ok <==> 0 <= nanos < 1_000_000 && i64::MIN <= total <= i64::MAX
            &&& r is Ok ==> r->Ok_0 == total
            &&& !(0 <= nanos < 1_000_000) ==> r->Err_0 == Error::InvalidNanosOfMilli
            &&& r is Err && 0 <= nanos < 1_000_000 ==> r->Err_0 == Error::TimestampOverflow
        }),
{
}

/// The columns of a bucket are those whose bucket it is, in ascending order.
pub proof fn lemma_bucket_columns(columns: Seq<ColumnMetaView>, b: nat)
    requires
        columns.len() <= usize::MAX,
    ensures
        ({
            let list = schema::members(columns, b, columns.len());
            &&& forall|j: int, k: int| 0 <= j < k < list.len() ==> #[trigger] list[j] < #[trigger] list[k]
            &&& forall|c: int|
                0 <= c < columns.len() ==> (#[trigger] columns[c].bucket_id == b
                    <==> list.contains(c as usize))
        }),
{
    schema::lemma_members(columns, b, columns.len());
}

} // verus!
