//! The order of values, and what the statistics of a column say of its cells.

use crate::stats;
use crate::stats::{ColumnStatsView, Relation};
use crate::types::{DataType, TimeUnit};
use crate::values;
use crate::values::{CellView, Value, ValueView};
use std::cmp::Ordering;
use vstd::prelude::*;

verus! {

/// Whether text comes before other text: at the first byte in which they differ it has the
/// smaller one, or it ends where they still agree.
pub open spec fn text_before(x: Seq<u8>, y: Seq<u8>) -> bool {
    exists|k: int|
        0 <= k <= x.len() && k <= y.len() && #[trigger] x.take(k) == y.take(k) && k < y.len() && (
        k == x.len() || x[k] < y[k])
}

/// Whole numbers are ordered as numbers, whatever they count: days, milliseconds, unscaled
/// decimals.
pub proof fn lemma_number_order()
    ensures
        forall|x: i8, y: i8|
            (#[trigger] stats::value_relation(ValueView::TinyInt(x), ValueView::TinyInt(y)) == Some(
                Relation::Below,
            )) == (x < y) && (stats::value_relation(ValueView::TinyInt(x), ValueView::TinyInt(y)) == Some(
                Relation::Same,
            )) == (x == y) && (stats::value_relation(ValueView::TinyInt(x), ValueView::TinyInt(y)) == Some(
                Relation::Above,
            )) == (x > y),
        forall|x: i16, y: i16|
            (#[trigger] stats::value_relation(ValueView::SmallInt(x), ValueView::SmallInt(y)) == Some(
                Relation::Below,
            )) == (x < y) && (stats::value_relation(ValueView::SmallInt(x), ValueView::SmallInt(y)) == Some(
                Relation::Same,
            )) == (x == y) && (stats::value_relation(ValueView::SmallInt(x), ValueView::SmallInt(y)) == Some(
                Relation::Above,
            )) == (x > y),
        forall|x: i32, y: i32|
            (#[trigger] stats::value_relation(ValueView::Integer(x), ValueView::Integer(y)) == Some(
                Relation::Below,
            )) == (x < y) && (stats::value_relation(ValueView::Integer(x), ValueView::Integer(y)) == Some(
                Relation::Same,
            )) == (x == y) && (stats::value_relation(ValueView::Integer(x), ValueView::Integer(y)) == Some(
                Relation::Above,
            )) == (x > y),
        forall|x: i64, y: i64|
            (#[trigger] stats::value_relation(ValueView::BigInt(x), ValueView::BigInt(y)) == Some(
                Relation::Below,
            )) == (x < y) && (stats::value_relation(ValueView::BigInt(x), ValueView::BigInt(y)) == Some(
                Relation::Same,
            )) == (x == y) && (stats::value_relation(ValueView::BigInt(x), ValueView::BigInt(y)) == Some(
                Relation::Above,
            )) == (x > y),
        forall|x: i32, y: i32|
            (#[trigger] stats::value_relation(ValueView::Date(x), ValueView::Date(y)) == Some(
                Relation::Below,
            )) == (x < y) && (stats::value_relation(ValueView::Date(x), ValueView::Date(y)) == Some(
                Relation::Same,
            )) == (x == y) && (stats::value_relation(ValueView::Date(x), ValueView::Date(y)) == Some(
                Relation::Above,
            )) == (x > y),
        forall|x: i32, y: i32|
            (#[trigger] stats::value_relation(ValueView::Time(x), ValueView::Time(y)) == Some(
                Relation::Below,
            )) == (x < y) && (stats::value_relation(ValueView::Time(x), ValueView::Time(y)) == Some(
                Relation::Same,
            )) == (x == y) && (stats::value_relation(ValueView::Time(x), ValueView::Time(y)) == Some(
                Relation::Above,
            )) == (x > y),
        forall|x: i64, y: i64|
            (#[trigger] stats::value_relation(ValueView::DecimalCompact(x), ValueView::DecimalCompact(y)) == Some(
                Relation::Below,
            )) == (x < y) && (stats::value_relation(ValueView::DecimalCompact(x), ValueView::DecimalCompact(y)) == Some(
                Relation::Same,
            )) == (x == y) && (stats::value_relation(ValueView::DecimalCompact(x), ValueView::DecimalCompact(y)) == Some(
                Relation::Above,
            )) == (x > y),
        forall|x: i64, y: i64|
            (#[trigger] stats::value_relation(ValueView::TimestampMillis(x), ValueView::TimestampMillis(y)) == Some(
                Relation::Below,
            )) == (x < y) && (stats::value_relation(ValueView::TimestampMillis(x), ValueView::TimestampMillis(y)) == Some(
                Relation::Same,
            )) == (x == y) && (stats::value_relation(ValueView::TimestampMillis(x), ValueView::TimestampMillis(y)) == Some(
                Relation::Above,
            )) == (x > y),
        forall|x: i64, y: i64|
            (#[trigger] stats::value_relation(ValueView::TimestampMicros(x), ValueView::TimestampMicros(y)) == Some(
                Relation::Below,
            )) == (x < y) && (stats::value_relation(ValueView::TimestampMicros(x), ValueView::TimestampMicros(y)) == Some(
                Relation::Same,
            )) == (x == y) && (stats::value_relation(ValueView::TimestampMicros(x), ValueView::TimestampMicros(y)) == Some(
                Relation::Above,
            )) == (x > y),
{
}

/// False comes before true.
pub proof fn lemma_boolean_order(x: bool, y: bool)
    ensures
        stats::value_relation(ValueView::Boolean(x), ValueView::Boolean(y)) == Some(
            if x == y {
                Relation::Same
            } else if y {
                Relation::Below
            } else {
                Relation::Above
            },
        ),
{
}

/// Timestamps in nanoseconds are ordered by the nanoseconds that they count.
pub proof fn lemma_nanos_order(m: i64, n: i32, p: i64, q: i32)
    requires
        0 <= n < 1_000_000,
        0 <= q < 1_000_000,
    ensures
        ({
            let r = stats::value_relation(
                ValueView::TimestampNanos { millis: m, nanos_of_milli: n },
                ValueView::TimestampNanos { millis: p, nanos_of_milli: q },
            );
            let x = m * 1_000_000 + n;
            let y = p * 1_000_000 + q;
            &&& r is Some
            &&& r->0 == Relation::Below <==> x < y
            &&& r->0 == Relation::Same <==> x == y
            &&& r->0 == Relation::Above <==> x > y
        }),
{
}

/// 32-bit floats without a sign are ordered as their bits, those with a sign the other way
/// round, and one with a sign comes before one without; both zeros are the same. What is not
/// a number has no order.
pub proof fn lemma_float_order(x: u32, y: u32)
    ensures
        ({
            let r = stats::value_relation(ValueView::Float(x), ValueView::Float(y));
            let is_number = |z: u32| z <= 0x7F80_0000 || 0x8000_0000 <= z <= 0x8000_0000 + 0x7F80_0000;
            &&& r is Some <==> is_number(x) && is_number(y)
            &&& r is Some && x < 0x8000_0000 && y < 0x8000_0000 ==> {
                &&& r->0 == Relation::Below <==> x < y
                &&& r->0 == Relation::Above <==> x > y
            }
            &&& r is Some && x >= 0x8000_0000 && y >= 0x8000_0000 ==> {
                &&& r->0 == Relation::Below <==> x > y
                &&& r->0 == Relation::Above <==> x < y
            }
            &&& r is Some && x >= 0x8000_0000 && y < 0x8000_0000 ==> r->0 == if x == 0x8000_0000 && y == 0 {
                Relation::Same
            } else {
                Relation::Below
            }
            &&& r is Some && x < 0x8000_0000 && y >= 0x8000_0000 ==> r->0 == if x == 0 && y == 0x8000_0000 {
                Relation::Same
            } else {
                Relation::Above
            }
        }),
{
}

/// 64-bit floats without a sign are ordered as their bits, those with a sign the other way
/// round, and one with a sign comes before one without; both zeros are the same. What is not
/// a number has no order.
pub proof fn lemma_double_order(x: u64, y: u64)
    ensures
        ({
            let r = stats::value_relation(ValueView::Double(x), ValueView::Double(y));
            let is_number = |z: u64| z <= 0x7FF0_0000_0000_0000 || 0x8000_0000_0000_0000 <= z <= 0x8000_0000_0000_0000 + 0x7FF0_0000_0000_0000;
            &&& r is Some <==> is_number(x) && is_number(y)
            &&& r is Some && x < 0x8000_0000_0000_0000 && y < 0x8000_0000_0000_0000 ==> {
                &&& r->0 == Relation::Below <==> x < y
                &&& r->0 == Relation::Above <==> x > y
            }
            &&& r is Some && x >= 0x8000_0000_0000_0000 && y >= 0x8000_0000_0000_0000 ==> {
                &&& r->0 == Relation::Below <==> x > y
                &&& r->0 == Relation::Above <==> x < y
            }
            &&& r is Some && x >= 0x8000_0000_0000_0000 && y < 0x8000_0000_0000_0000 ==> r->0 == if x == 0x8000_0000_0000_0000 && y == 0 {
                Relation::Same
            } else {
                Relation::Below
            }
            &&& r is Some && x < 0x8000_0000_0000_0000 && y >= 0x8000_0000_0000_0000 ==> r->0 == if x == 0 && y == 0x8000_0000_0000_0000 {
                Relation::Same
            } else {
                Relation::Above
            }
        }),
{
}

proof fn lemma_text_before_step(x: Seq<u8>, y: Seq<u8>)
    requires
        x.len() > 0,
        y.len() > 0,
        x[0] == y[0],
    ensures
        text_before(x, y) == text_before(x.drop_first(), y.drop_first()),
{
    let a = x.drop_first();
    let b = y.drop_first();
    if text_before(x, y) {
        let k = choose|k: int|
            0 <= k <= x.len() && k <= y.len() && #[trigger] x.take(k) == y.take(k) && k < y.len()
                && (k == x.len() || x[k] < y[k]);
        assert(k >= 1);
        assert forall|i: int| 0 <= i < k - 1 implies a[i] == b[i] by {
            assert(x.take(k)[i + 1] == y.take(k)[i + 1]);
        }
        assert(a.take(k - 1) =~= b.take(k - 1));
    }
    if text_before(a, b) {
        let k = choose|k: int|
            0 <= k <= a.len() && k <= b.len() && #[trigger] a.take(k) == b.take(k) && k < b.len()
                && (k == a.len() || a[k] < b[k]);
        assert forall|i: int| 0 <= i < k + 1 implies x[i] == y[i] by {
            if i > 0 {
                assert(a.take(k)[i - 1] == b.take(k)[i - 1]);
            }
        }
        assert(x.take(k + 1) =~= y.take(k + 1));
    }
}

/// Text is ordered byte by byte, and is the same only as itself.
pub proof fn lemma_text_order(x: Seq<u8>, y: Seq<u8>)
    ensures
        ({
            let r = stats::value_relation(ValueView::String(x), ValueView::String(y));
            &&& r is Some
            &&& r->0 == Relation::Below <==> text_before(x, y)
            &&& r->0 == Relation::Same <==> x == y
            &&& r->0 == Relation::Above <==> text_before(y, x)
        }),
    decreases x.len(),
{
    if x.len() == 0 || y.len() == 0 {
        assert(x.take(0) =~= y.take(0));
        assert(y.take(0) =~= x.take(0));
        if x.len() == 0 && y.len() == 0 {
            assert(x =~= y);
        }
    } else if x[0] != y[0] {
        assert(x.take(0) =~= y.take(0));
        assert(y.take(0) =~= x.take(0));
        if text_before(x, y) {
            let k = choose|k: int|
                0 <= k <= x.len() && k <= y.len() && #[trigger] x.take(k) == y.take(k) && k
                    < y.len() && (k == x.len() || x[k] < y[k]);
            if k > 0 {
                assert(x.take(k)[0] == y.take(k)[0]);
            }
        }
        if text_before(y, x) {
            let k = choose|k: int|
                0 <= k <= y.len() && k <= x.len() && #[trigger] y.take(k) == x.take(k) && k
                    < x.len() && (k == y.len() || y[k] < x[k]);
            if k > 0 {
                assert(x.take(k)[0] == y.take(k)[0]);
            }
        }
    } else {
        lemma_text_before_step(x, y);
        lemma_text_before_step(y, x);
        lemma_text_order(x.drop_first(), y.drop_first());
        if x.drop_first() == y.drop_first() {
            assert(x =~= seq![x[0]] + x.drop_first());
            assert(y =~= seq![y[0]] + y.drop_first());
        }
    }
}

/// Only values of one kind have an order, and not all of them: nulls, wide decimals and bytes
/// have none.
pub proof fn lemma_order_within_kinds(a: ValueView, b: ValueView)
    requires
        stats::value_relation(a, b) is Some,
    ensures

        a is Boolean == b is Boolean,
        a is TinyInt == b is TinyInt,
        a is SmallInt == b is SmallInt,
        a is Integer == b is Integer,
        a is BigInt == b is BigInt,
        a is Date == b is Date,
        a is Time == b is Time,
        a is DecimalCompact == b is DecimalCompact,
        a is TimestampMillis == b is TimestampMillis,
        a is TimestampMicros == b is TimestampMicros,
        a is Float == b is Float,
        a is Double == b is Double,
        a is TimestampNanos == b is TimestampNanos,
        a is String == b is String,
        !(a is Null) && !(a is DecimalLarge) && !(a is Bytes),
{
}

/// Turning two values round turns their order round.
pub proof fn lemma_order_turned(a: ValueView, b: ValueView)
    ensures
        stats::value_relation(a, b) == Some(Relation::Below) <==> stats::value_relation(b, a)
            == Some(Relation::Above),
        stats::value_relation(a, b) == Some(Relation::Same) <==> stats::value_relation(b, a)
            == Some(Relation::Same),
{
    if a is String && b is String {
        lemma_text_order(a->String_0, b->String_0);
        lemma_text_order(b->String_0, a->String_0);
    }
}

/// Every cell that statistics look at is among the values that they saw.
proof fn lemma_seen_has(dt: DataType, rows: Seq<CellView>, i: int)
    requires
        0 <= i < rows.len(),
        rows[i] != CellView::Null,
        stats::supported(dt),
        stats::stat_value(dt, rows[i]) is Some,
    ensures
        stats::seen(dt, rows).contains(stats::stat_value(dt, rows[i])->0),
    decreases rows.len(),
{
    let before = stats::seen(dt, rows.drop_last());
    let now = stats::seen(dt, rows);
    let v = stats::stat_value(dt, rows[i])->0;
    if i < rows.len() - 1 {
        assert(rows.drop_last()[i] == rows[i]);
        lemma_seen_has(dt, rows.drop_last(), i);
        let j = choose|j: int| 0 <= j < before.len() && before[j] == v;
        assert(now[j] == v);
    } else {
        assert(now == before.push(v));
        assert(now[before.len() as int] == v);
    }
}

/// Every value that statistics saw is one of a cell.
proof fn lemma_seen_from(dt: DataType, rows: Seq<CellView>, v: ValueView)
    requires
        stats::seen(dt, rows).contains(v),
    ensures
        exists|i: int|
            0 <= i < rows.len() && #[trigger] rows[i] != CellView::Null && stats::stat_value(
                dt,
                rows[i],
            ) == Some(v),
    decreases rows.len(),
{
    let before = stats::seen(dt, rows.drop_last());
    let now = stats::seen(dt, rows);
    let j = choose|j: int| 0 <= j < now.len() && now[j] == v;
    if j < before.len() {
        assert(before[j] == v);
        assert(before.contains(v));
        lemma_seen_from(dt, rows.drop_last(), v);
        let i = choose|i: int|
            0 <= i < rows.drop_last().len() && #[trigger] rows.drop_last()[i] != CellView::Null
                && stats::stat_value(dt, rows.drop_last()[i]) == Some(v);
        assert(rows[i] == rows.drop_last()[i]);
    } else {
        assert(rows[rows.len() - 1] == rows.last());
    }
}

/// What bounds say of one cell.
proof fn lemma_bound(dt: DataType, index: nat, rows: Seq<CellView>, i: int)
    requires
        0 <= i < rows.len(),
        rows[i] != CellView::Null,
        stats::supported(dt),
        stats::stat_value(dt, rows[i]) is Some,
    ensures
        ({
            let t = stats::with_cells(dt, stats::no_stats(index), rows);
            let v = stats::stat_value(dt, rows[i])->0;
            &&& t.min is Some
            &&& t.max is Some
            &&& stats::value_relation(v, t.min->0) != Some(Relation::Below)
            &&& stats::value_relation(v, t.max->0) != Some(Relation::Above)
        }),
{
    stats::lemma_column_stats(dt, index, rows);
    lemma_seen_has(dt, rows, i);
    let vs = stats::seen(dt, rows);
    let v = stats::stat_value(dt, rows[i])->0;
    let j = choose|j: int| 0 <= j < vs.len() && vs[j] == v;
    assert(vs[j] == v);
}

/// Where the bounds of a column come from.
proof fn lemma_bound_source(dt: DataType, index: nat, rows: Seq<CellView>)
    ensures
        ({
            let t = stats::with_cells(dt, stats::no_stats(index), rows);
            &&& t.min is Some <==> t.max is Some
            &&& t.min is Some ==> exists|i: int|
                0 <= i < rows.len() && #[trigger] rows[i] != CellView::Null && stats::stat_value(
                    dt,
                    rows[i],
                ) == t.min
            &&& t.max is Some ==> exists|i: int|
                0 <= i < rows.len() && #[trigger] rows[i] != CellView::Null && stats::stat_value(
                    dt,
                    rows[i],
                ) == t.max
        }),
{
    stats::lemma_column_stats(dt, index, rows);
    let t = stats::with_cells(dt, stats::no_stats(index), rows);
    if t.min is Some {
        lemma_seen_from(dt, rows, t.min->0);
        lemma_seen_from(dt, rows, t.max->0);
    }
}

/// Statistics are of the column that they were started for, and count its nulls.
pub proof fn lemma_null_count(dt: DataType, index: nat, rows: Seq<CellView>)
    ensures
        stats::with_cells(dt, stats::no_stats(index), rows).column_index == index,
        stats::with_cells(dt, stats::no_stats(index), rows).null_count == rows.filter(
            |c: CellView| c == CellView::Null,
        ).len(),
{
    stats::lemma_column_stats(dt, index, rows);
    lemma_null_total(rows);
}

proof fn lemma_null_total(rows: Seq<CellView>)
    ensures
        stats::null_total(rows) == rows.filter(|c: CellView| c == CellView::Null).len(),
    decreases rows.len(),
{
    reveal(Seq::filter);
    if rows.len() > 0 {
        lemma_null_total(rows.drop_last());
    }
}

/// The bounds of a column of days are the least and the greatest number in it, and are
/// missing exactly where it has none.
pub proof fn lemma_day_bounds(index: nat, rows: Seq<CellView>)
    ensures
        ({
            let t = stats::with_cells(DataType::Date32, stats::no_stats(index), rows);
            &&& t.min is Some <==> exists|i: int| 0 <= i < rows.len() && #[trigger] rows[i] is Date32
            &&& t.max is Some <==> exists|i: int| 0 <= i < rows.len() && #[trigger] rows[i] is Date32
            &&& t.min is Some ==> {
                &&& t.min->0 is Date
                &&& t.max->0 is Date
                &&& rows.contains(CellView::Date32(t.min->0->Date_0))
                &&& rows.contains(CellView::Date32(t.max->0->Date_0))
                &&& forall|i: int|
                    0 <= i < rows.len() && #[trigger] rows[i] is Date32 ==> t.min->0->Date_0
                        <= rows[i]->Date32_0 <= t.max->0->Date_0
            }
        }),
{
    let dt = DataType::Date32;
    lemma_bound_source(dt, index, rows);
    assert forall|i: int| 0 <= i < rows.len() && #[trigger] rows[i] is Date32 implies {
        let t = stats::with_cells(dt, stats::no_stats(index), rows);
        &&& t.min is Some
        &&& t.max is Some
        &&& t.min->0 is Date && t.max->0 is Date ==> t.min->0->Date_0 <= rows[i]->Date32_0
            <= t.max->0->Date_0
    } by {
        lemma_bound(dt, index, rows, i);
        lemma_number_order();
    }
}

/// The bounds of a column of 8-bit numbers are the least and the greatest number in it, and are
/// missing exactly where it has none.
pub proof fn lemma_int8_bounds(index: nat, rows: Seq<CellView>)
    ensures
        ({
            let t = stats::with_cells(DataType::Int8, stats::no_stats(index), rows);
            &&& t.min is Some <==> exists|i: int| 0 <= i < rows.len() && #[trigger] rows[i] is Int8
            &&& t.max is Some <==> exists|i: int| 0 <= i < rows.len() && #[trigger] rows[i] is Int8
            &&& t.min is Some ==> {
                &&& t.min->0 is TinyInt
                &&& t.max->0 is TinyInt
                &&& rows.contains(CellView::Int8(t.min->0->TinyInt_0))
                &&& rows.contains(CellView::Int8(t.max->0->TinyInt_0))
                &&& forall|i: int|
                    0 <= i < rows.len() && #[trigger] rows[i] is Int8 ==> t.min->0->TinyInt_0
                        <= rows[i]->Int8_0 <= t.max->0->TinyInt_0
            }
        }),
{
    let dt = DataType::Int8;
    lemma_bound_source(dt, index, rows);
    assert forall|i: int| 0 <= i < rows.len() && #[trigger] rows[i] is Int8 implies {
        let t = stats::with_cells(dt, stats::no_stats(index), rows);
        &&& t.min is Some
        &&& t.max is Some
        &&& t.min->0 is TinyInt && t.max->0 is TinyInt ==> t.min->0->TinyInt_0 <= rows[i]->Int8_0
            <= t.max->0->TinyInt_0
    } by {
        lemma_bound(dt, index, rows, i);
        lemma_number_order();
    }
}

/// The bounds of a column of 16-bit numbers are the least and the greatest number in it, and are
/// missing exactly where it has none.
pub proof fn lemma_int16_bounds(index: nat, rows: Seq<CellView>)
    ensures
        ({
            let t = stats::with_cells(DataType::Int16, stats::no_stats(index), rows);
            &&& t.min is Some <==> exists|i: int| 0 <= i < rows.len() && #[trigger] rows[i] is Int16
            &&& t.max is Some <==> exists|i: int| 0 <= i < rows.len() && #[trigger] rows[i] is Int16
            &&& t.min is Some ==> {
                &&& t.min->0 is SmallInt
                &&& t.max->0 is SmallInt
                &&& rows.contains(CellView::Int16(t.min->0->SmallInt_0))
                &&& rows.contains(CellView::Int16(t.max->0->SmallInt_0))
                &&& forall|i: int|
                    0 <= i < rows.len() && #[trigger] rows[i] is Int16 ==> t.min->0->SmallInt_0
                        <= rows[i]->Int16_0 <= t.max->0->SmallInt_0
            }
        }),
{
    let dt = DataType::Int16;
    lemma_bound_source(dt, index, rows);
    assert forall|i: int| 0 <= i < rows.len() && #[trigger] rows[i] is Int16 implies {
        let t = stats::with_cells(dt, stats::no_stats(index), rows);
        &&& t.min is Some
        &&& t.max is Some
        &&& t.min->0 is SmallInt && t.max->0 is SmallInt ==> t.min->0->SmallInt_0 <= rows[i]->Int16_0
            <= t.max->0->SmallInt_0
    } by {
        lemma_bound(dt, index, rows, i);
        lemma_number_order();
    }
}

/// The bounds of a column of 32-bit numbers are the least and the greatest number in it, and are
/// missing exactly where it has none.
pub proof fn lemma_int32_bounds(index: nat, rows: Seq<CellView>)
    ensures
        ({
            let t = stats::with_cells(DataType::Int32, stats::no_stats(index), rows);
            &&& t.min is Some <==> exists|i: int| 0 <= i < rows.len() && #[trigger] rows[i] is Int32
            &&& t.max is Some <==> exists|i: int| 0 <= i < rows.len() && #[trigger] rows[i] is Int32
            &&& t.min is Some ==> {
                &&& t.min->0 is Integer
                &&& t.max->0 is Integer
                &&& rows.contains(CellView::Int32(t.min->0->Integer_0))
                &&& rows.contains(CellView::Int32(t.max->0->Integer_0))
                &&& forall|i: int|
                    0 <= i < rows.len() && #[trigger] rows[i] is Int32 ==> t.min->0->Integer_0
                        <= rows[i]->Int32_0 <= t.max->0->Integer_0
            }
        }),
{
    let dt = DataType::Int32;
    lemma_bound_source(dt, index, rows);
    assert forall|i: int| 0 <= i < rows.len() && #[trigger] rows[i] is Int32 implies {
        let t = stats::with_cells(dt, stats::no_stats(index), rows);
        &&& t.min is Some
        &&& t.max is Some
        &&& t.min->0 is Integer && t.max->0 is Integer ==> t.min->0->Integer_0 <= rows[i]->Int32_0
            <= t.max->0->Integer_0
    } by {
        lemma_bound(dt, index, rows, i);
        lemma_number_order();
    }
}

/// The bounds of a column of 64-bit numbers are the least and the greatest number in it, and are
/// missing exactly where it has none.
pub proof fn lemma_int64_bounds(index: nat, rows: Seq<CellView>)
    ensures
        ({
            let t = stats::with_cells(DataType::Int64, stats::no_stats(index), rows);
            &&& t.min is Some <==> exists|i: int| 0 <= i < rows.len() && #[trigger] rows[i] is Int64
            &&& t.max is Some <==> exists|i: int| 0 <= i < rows.len() && #[trigger] rows[i] is Int64
            &&& t.min is Some ==> {
                &&& t.min->0 is BigInt
                &&& t.max->0 is BigInt
                &&& rows.contains(CellView::Int64(t.min->0->BigInt_0))
                &&& rows.contains(CellView::Int64(t.max->0->BigInt_0))
                &&& forall|i: int|
                    0 <= i < rows.len() && #[trigger] rows[i] is Int64 ==> t.min->0->BigInt_0
                        <= rows[i]->Int64_0 <= t.max->0->BigInt_0
            }
        }),
{
    let dt = DataType::Int64;
    lemma_bound_source(dt, index, rows);
    assert forall|i: int| 0 <= i < rows.len() && #[trigger] rows[i] is Int64 implies {
        let t = stats::with_cells(dt, stats::no_stats(index), rows);
        &&& t.min is Some
        &&& t.max is Some
        &&& t.min->0 is BigInt && t.max->0 is BigInt ==> t.min->0->BigInt_0 <= rows[i]->Int64_0
            <= t.max->0->BigInt_0
    } by {
        lemma_bound(dt, index, rows, i);
        lemma_number_order();
    }
}

/// The bounds of a column of times of day are the least and the greatest number in it, and are
/// missing exactly where it has none.
pub proof fn lemma_time_bounds(unit: TimeUnit, index: nat, rows: Seq<CellView>)
    ensures
        ({
            let t = stats::with_cells(DataType::Time32(unit), stats::no_stats(index), rows);
            &&& t.min is Some <==> exists|i: int| 0 <= i < rows.len() && #[trigger] rows[i] is Time32
            &&& t.max is Some <==> exists|i: int| 0 <= i < rows.len() && #[trigger] rows[i] is Time32
            &&& t.min is Some ==> {
                &&& t.min->0 is Time
                &&& t.max->0 is Time
                &&& rows.contains(CellView::Time32(t.min->0->Time_0))
                &&& rows.contains(CellView::Time32(t.max->0->Time_0))
                &&& forall|i: int|
                    0 <= i < rows.len() && #[trigger] rows[i] is Time32 ==> t.min->0->Time_0
                        <= rows[i]->Time32_0 <= t.max->0->Time_0
            }
        }),
{
    let dt = DataType::Time32(unit);
    lemma_bound_source(dt, index, rows);
    assert forall|i: int| 0 <= i < rows.len() && #[trigger] rows[i] is Time32 implies {
        let t = stats::with_cells(dt, stats::no_stats(index), rows);
        &&& t.min is Some
        &&& t.max is Some
        &&& t.min->0 is Time && t.max->0 is Time ==> t.min->0->Time_0 <= rows[i]->Time32_0
            <= t.max->0->Time_0
    } by {
        lemma_bound(dt, index, rows, i);
        lemma_number_order();
    }
}

/// The bounds of a column of timestamps in milliseconds are the least and the greatest number in it, and are
/// missing exactly where it has none.
pub proof fn lemma_millis_bounds(zoned: bool, index: nat, rows: Seq<CellView>)
    ensures
        ({
            let t = stats::with_cells(DataType::Timestamp(TimeUnit::Millisecond, zoned), stats::no_stats(index), rows);
            &&& t.min is Some <==> exists|i: int| 0 <= i < rows.len() && #[trigger] rows[i] is TimestampMillis
            &&& t.max is Some <==> exists|i: int| 0 <= i < rows.len() && #[trigger] rows[i] is TimestampMillis
            &&& t.min is Some ==> {
                &&& t.min->0 is TimestampMillis
                &&& t.max->0 is TimestampMillis
                &&& rows.contains(CellView::TimestampMillis(t.min->0->TimestampMillis_0))
                &&& rows.contains(CellView::TimestampMillis(t.max->0->TimestampMillis_0))
                &&& forall|i: int|
                    0 <= i < rows.len() && #[trigger] rows[i] is TimestampMillis ==> t.min->0->TimestampMillis_0
                        <= rows[i]->TimestampMillis_0 <= t.max->0->TimestampMillis_0
            }
        }),
{
    let dt = DataType::Timestamp(TimeUnit::Millisecond, zoned);
    lemma_bound_source(dt, index, rows);
    assert forall|i: int| 0 <= i < rows.len() && #[trigger] rows[i] is TimestampMillis implies {
        let t = stats::with_cells(dt, stats::no_stats(index), rows);
        &&& t.min is Some
        &&& t.max is Some
        &&& t.min->0 is TimestampMillis && t.max->0 is TimestampMillis ==> t.min->0->TimestampMillis_0 <= rows[i]->TimestampMillis_0
            <= t.max->0->TimestampMillis_0
    } by {
        lemma_bound(dt, index, rows, i);
        lemma_number_order();
    }
}

/// The bounds of a column of timestamps in microseconds are the least and the greatest number in it, and are
/// missing exactly where it has none.
pub proof fn lemma_micros_bounds(zoned: bool, index: nat, rows: Seq<CellView>)
    ensures
        ({
            let t = stats::with_cells(DataType::Timestamp(TimeUnit::Microsecond, zoned), stats::no_stats(index), rows);
            &&& t.min is Some <==> exists|i: int| 0 <= i < rows.len() && #[trigger] rows[i] is TimestampMicros
            &&& t.max is Some <==> exists|i: int| 0 <= i < rows.len() && #[trigger] rows[i] is TimestampMicros
            &&& t.min is Some ==> {
                &&& t.min->0 is TimestampMicros
                &&& t.max->0 is TimestampMicros
                &&& rows.contains(CellView::TimestampMicros(t.min->0->TimestampMicros_0))
                &&& rows.contains(CellView::TimestampMicros(t.max->0->TimestampMicros_0))
                &&& forall|i: int|
                    0 <= i < rows.len() && #[trigger] rows[i] is TimestampMicros ==> t.min->0->TimestampMicros_0
                        <= rows[i]->TimestampMicros_0 <= t.max->0->TimestampMicros_0
            }
        }),
{
    let dt = DataType::Timestamp(TimeUnit::Microsecond, zoned);
    lemma_bound_source(dt, index, rows);
    assert forall|i: int| 0 <= i < rows.len() && #[trigger] rows[i] is TimestampMicros implies {
        let t = stats::with_cells(dt, stats::no_stats(index), rows);
        &&& t.min is Some
        &&& t.max is Some
        &&& t.min->0 is TimestampMicros && t.max->0 is TimestampMicros ==> t.min->0->TimestampMicros_0 <= rows[i]->TimestampMicros_0
            <= t.max->0->TimestampMicros_0
    } by {
        lemma_bound(dt, index, rows, i);
        lemma_number_order();
    }
}

/// The bounds of a column of truth values: false is the least where there is one, true the
/// greatest.
pub proof fn lemma_boolean_bounds(index: nat, rows: Seq<CellView>)
    ensures
        ({
            let t = stats::with_cells(DataType::Boolean, stats::no_stats(index), rows);
            let no = rows.contains(CellView::Boolean(false));
            let yes = rows.contains(CellView::Boolean(true));
            &&& t.min == if no {
                Some(ValueView::Boolean(false))
            } else if yes {
                Some(ValueView::Boolean(true))
            } else {
                None
            }
            &&& t.max == if yes {
                Some(ValueView::Boolean(true))
            } else if no {
                Some(ValueView::Boolean(false))
            } else {
                None
            }
        }),
{
    let dt = DataType::Boolean;
    lemma_bound_source(dt, index, rows);
    assert forall|x: bool| rows.contains(CellView::Boolean(x)) implies {
        let t = stats::with_cells(dt, stats::no_stats(index), rows);
        &&& t.min is Some
        &&& t.max is Some
        &&& stats::value_relation(ValueView::Boolean(x), t.min->0) != Some(Relation::Below)
        &&& stats::value_relation(ValueView::Boolean(x), t.max->0) != Some(Relation::Above)
    } by {
        let i = choose|i: int| 0 <= i < rows.len() && rows[i] == CellView::Boolean(x);
        lemma_bound(dt, index, rows, i);
    }
    let t = stats::with_cells(dt, stats::no_stats(index), rows);
    if t.min is Some {
        let i = choose|i: int|
            0 <= i < rows.len() && #[trigger] rows[i] != CellView::Null && stats::stat_value(
                dt,
                rows[i],
            ) == t.min;
        let j = choose|j: int|
            0 <= j < rows.len() && #[trigger] rows[j] != CellView::Null && stats::stat_value(
                dt,
                rows[j],
            ) == t.max;
        assert(rows.contains(rows[i]) && rows.contains(rows[j]));
    }
    lemma_boolean_order(true, false);
    lemma_boolean_order(false, true);
}

/// The bounds of a column of text are the first and the last of its texts.
pub proof fn lemma_text_bounds(index: nat, rows: Seq<CellView>)
    ensures
        ({
            let t = stats::with_cells(DataType::Utf8, stats::no_stats(index), rows);
            &&& t.min is Some <==> exists|i: int| 0 <= i < rows.len() && #[trigger] rows[i] is Utf8
            &&& t.max is Some <==> exists|i: int| 0 <= i < rows.len() && #[trigger] rows[i] is Utf8
            &&& t.min is Some ==> {
                &&& t.min->0 is String
                &&& t.max->0 is String
                &&& rows.contains(CellView::Utf8(t.min->0->String_0))
                &&& rows.contains(CellView::Utf8(t.max->0->String_0))
                &&& forall|i: int|
                    0 <= i < rows.len() && #[trigger] rows[i] is Utf8 ==> !text_before(
                        rows[i]->Utf8_0,
                        t.min->0->String_0,
                    ) && !text_before(t.max->0->String_0, rows[i]->Utf8_0)
            }
        }),
{
    let dt = DataType::Utf8;
    lemma_bound_source(dt, index, rows);
    assert forall|i: int| 0 <= i < rows.len() && #[trigger] rows[i] is Utf8 implies {
        let t = stats::with_cells(dt, stats::no_stats(index), rows);
        &&& t.min is Some
        &&& t.max is Some
        &&& t.min->0 is String && t.max->0 is String ==> !text_before(
            rows[i]->Utf8_0,
            t.min->0->String_0,
        ) && !text_before(t.max->0->String_0, rows[i]->Utf8_0)
    } by {
        let t = stats::with_cells(dt, stats::no_stats(index), rows);
        lemma_bound(dt, index, rows, i);
        lemma_text_order(rows[i]->Utf8_0, t.min->0->String_0);
        lemma_text_order(rows[i]->Utf8_0, t.max->0->String_0);
    }
}

/// A number of 64 bits is its low 64 bits.
proof fn lemma_low_bits_all(x: int)
    requires
        i64::MIN <= x <= i64::MAX,
    ensures
        values::low_i64(x) == x,
{
    crate::bytes::lemma_bases();
    if x < 0 {
        assert(x % 0x1_0000_0000_0000_0000 == x + 0x1_0000_0000_0000_0000);
    }
}

/// The bounds of a column of decimals of at most 18 digits are the least and the greatest
/// unscaled number in it.
pub proof fn lemma_decimal_bounds(precision: u8, scale: i8, index: nat, rows: Seq<CellView>)
    requires
        precision <= 18,
        forall|i: int|
            0 <= i < rows.len() && #[trigger] rows[i] is Decimal128 ==> i64::MIN
                <= rows[i]->Decimal128_0 <= i64::MAX,
    ensures
        ({
            let t = stats::with_cells(
                DataType::Decimal128(precision, scale),
                stats::no_stats(index),
                rows,
            );
            &&& t.min is Some <==> exists|i: int|
                0 <= i < rows.len() && #[trigger] rows[i] is Decimal128
            &&& t.max is Some <==> exists|i: int|
                0 <= i < rows.len() && #[trigger] rows[i] is Decimal128
            &&& t.min is Some ==> {
                &&& t.min->0 is DecimalCompact
                &&& t.max->0 is DecimalCompact
                &&& rows.contains(CellView::Decimal128(t.min->0->DecimalCompact_0 as i128))
                &&& rows.contains(CellView::Decimal128(t.max->0->DecimalCompact_0 as i128))
                &&& forall|i: int|
                    0 <= i < rows.len() && #[trigger] rows[i] is Decimal128
                        ==> t.min->0->DecimalCompact_0 <= rows[i]->Decimal128_0
                        <= t.max->0->DecimalCompact_0
            }
        }),
{
    let dt = DataType::Decimal128(precision, scale);
    lemma_bound_source(dt, index, rows);
    assert forall|i: int| 0 <= i < rows.len() && #[trigger] rows[i] is Decimal128 implies {
        let t = stats::with_cells(dt, stats::no_stats(index), rows);
        &&& t.min is Some
        &&& t.max is Some
        &&& values::low_i64(rows[i]->Decimal128_0 as int) == rows[i]->Decimal128_0
        &&& t.min->0 is DecimalCompact && t.max->0 is DecimalCompact
            ==> t.min->0->DecimalCompact_0 <= rows[i]->Decimal128_0 <= t.max->0->DecimalCompact_0
    } by {
        lemma_low_bits_all(rows[i]->Decimal128_0 as int);
        lemma_bound(dt, index, rows, i);
        lemma_number_order();
    }
}

/// The bounds of a column of timestamps in milliseconds and nanoseconds are those that count
/// the fewest and the most nanoseconds.
pub proof fn lemma_legacy_bounds(index: nat, rows: Seq<CellView>)
    requires
        forall|i: int|
            0 <= i < rows.len() && #[trigger] rows[i] is LegacyTimestampNanos ==> (rows[i] matches CellView::LegacyTimestampNanos(
                Some(_),
                Some(n),
            ) && 0 <= n < 1_000_000),
    ensures
        ({
            let t = stats::with_cells(DataType::LegacyTimestampNanos, stats::no_stats(index), rows);
            &&& t.min is Some <==> exists|i: int|
                0 <= i < rows.len() && #[trigger] rows[i] is LegacyTimestampNanos
            &&& t.max is Some <==> exists|i: int|
                0 <= i < rows.len() && #[trigger] rows[i] is LegacyTimestampNanos
            &&& t.min is Some ==> {
                &&& t.min->0 is TimestampNanos
                &&& t.max->0 is TimestampNanos
                &&& rows.contains(
                    CellView::LegacyTimestampNanos(
                        Some(t.min->0->millis),
                        Some(t.min->0->nanos_of_milli),
                    ),
                )
                &&& rows.contains(
                    CellView::LegacyTimestampNanos(
                        Some(t.max->0->millis),
                        Some(t.max->0->nanos_of_milli),
                    ),
                )
                &&& forall|i: int|
                    0 <= i < rows.len() && #[trigger] rows[i] is LegacyTimestampNanos ==> {
                        let ns = rows[i]->LegacyTimestampNanos_0->0 * 1_000_000
                            + rows[i]->LegacyTimestampNanos_1->0;
                        t.min->0->millis * 1_000_000 + t.min->0->nanos_of_milli <= ns
                            <= t.max->0->millis * 1_000_000 + t.max->0->nanos_of_milli
                    }
            }
        }),
{
    let dt = DataType::LegacyTimestampNanos;
    lemma_bound_source(dt, index, rows);
    let t = stats::with_cells(dt, stats::no_stats(index), rows);
    if t.min is Some {
        let i = choose|i: int|
            0 <= i < rows.len() && #[trigger] rows[i] != CellView::Null && stats::stat_value(
                dt,
                rows[i],
            ) == t.min;
        let j = choose|j: int|
            0 <= j < rows.len() && #[trigger] rows[j] != CellView::Null && stats::stat_value(
                dt,
                rows[j],
            ) == t.max;
        assert(rows[i] is LegacyTimestampNanos && rows[j] is LegacyTimestampNanos);
        assert(rows.contains(rows[i]) && rows.contains(rows[j]));
    }
    assert forall|i: int| 0 <= i < rows.len() && #[trigger] rows[i] is LegacyTimestampNanos implies {
        let m = rows[i]->LegacyTimestampNanos_0->0;
        let n = rows[i]->LegacyTimestampNanos_1->0;
        let ns = m * 1_000_000 + n;
        &&& t.min is Some
        &&& t.max is Some
        &&& t.min->0->millis * 1_000_000 + t.min->0->nanos_of_milli <= ns <= t.max->0->millis
            * 1_000_000 + t.max->0->nanos_of_milli
    } by {
        let m = rows[i]->LegacyTimestampNanos_0->0;
        let n = rows[i]->LegacyTimestampNanos_1->0;
        lemma_bound(dt, index, rows, i);
        lemma_nanos_order(m, n, t.min->0->millis, t.min->0->nanos_of_milli);
        lemma_nanos_order(m, n, t.max->0->millis, t.max->0->nanos_of_milli);
    }
}

/// Where a 32-bit float is on the number line, as far as the order of floats goes. Those with
/// a sign lie the further below zero the greater their bits.
pub open spec fn float_line(bits: u32) -> int {
    if bits < 0x8000_0000 {
        bits as int
    } else {
        0x8000_0000 - bits
    }
}

/// The bounds of a column of 32-bit floats without any that is not a number are the least and
/// the greatest of them.
pub proof fn lemma_float_bounds(index: nat, rows: Seq<CellView>)
    requires
        forall|i: int|
            0 <= i < rows.len() && #[trigger] rows[i] is Float32 ==> -0x7F80_0000 <= float_line(
                rows[i]->Float32_0,
            ) <= 0x7F80_0000,
    ensures
        ({
            let t = stats::with_cells(DataType::Float32, stats::no_stats(index), rows);
            &&& t.min is Some <==> exists|i: int|
                0 <= i < rows.len() && #[trigger] rows[i] is Float32
            &&& t.max is Some <==> exists|i: int|
                0 <= i < rows.len() && #[trigger] rows[i] is Float32
            &&& t.min is Some ==> {
                &&& t.min->0 is Float
                &&& t.max->0 is Float
                &&& rows.contains(CellView::Float32(t.min->0->Float_0))
                &&& rows.contains(CellView::Float32(t.max->0->Float_0))
                &&& forall|i: int|
                    0 <= i < rows.len() && #[trigger] rows[i] is Float32 ==> float_line(
                        t.min->0->Float_0,
                    ) <= float_line(rows[i]->Float32_0) <= float_line(t.max->0->Float_0)
            }
        }),
{
    let dt = DataType::Float32;
    lemma_bound_source(dt, index, rows);
    let t = stats::with_cells(dt, stats::no_stats(index), rows);
    if t.min is Some {
        let i = choose|i: int|
            0 <= i < rows.len() && #[trigger] rows[i] != CellView::Null && stats::stat_value(
                dt,
                rows[i],
            ) == t.min;
        let j = choose|j: int|
            0 <= j < rows.len() && #[trigger] rows[j] != CellView::Null && stats::stat_value(
                dt,
                rows[j],
            ) == t.max;
        assert(rows[i] is Float32 && rows[j] is Float32);
        assert(rows.contains(rows[i]) && rows.contains(rows[j]));
    }
    assert forall|i: int| 0 <= i < rows.len() && #[trigger] rows[i] is Float32 implies {
        &&& t.min is Some
        &&& t.max is Some
        &&& float_line(t.min->0->Float_0) <= float_line(rows[i]->Float32_0)
            <= float_line(t.max->0->Float_0)
    } by {
        lemma_bound(dt, index, rows, i);
        lemma_float_order(rows[i]->Float32_0, t.min->0->Float_0);
        lemma_float_order(rows[i]->Float32_0, t.max->0->Float_0);
    }
}

/// Where a 64-bit float is on the number line, as far as the order of floats goes. Those with
/// a sign lie the further below zero the greater their bits.
pub open spec fn double_line(bits: u64) -> int {
    if bits < 0x8000_0000_0000_0000 {
        bits as int
    } else {
        0x8000_0000_0000_0000 - bits
    }
}

/// The bounds of a column of 64-bit floats without any that is not a number are the least and
/// the greatest of them.
pub proof fn lemma_double_bounds(index: nat, rows: Seq<CellView>)
    requires
        forall|i: int|
            0 <= i < rows.len() && #[trigger] rows[i] is Float64 ==> -0x7FF0_0000_0000_0000 <= double_line(
                rows[i]->Float64_0,
            ) <= 0x7FF0_0000_0000_0000,
    ensures
        ({
            let t = stats::with_cells(DataType::Float64, stats::no_stats(index), rows);
            &&& t.min is Some <==> exists|i: int|
                0 <= i < rows.len() && #[trigger] rows[i] is Float64
            &&& t.max is Some <==> exists|i: int|
                0 <= i < rows.len() && #[trigger] rows[i] is Float64
            &&& t.min is Some ==> {
                &&& t.min->0 is Double
                &&& t.max->0 is Double
                &&& rows.contains(CellView::Float64(t.min->0->Double_0))
                &&& rows.contains(CellView::Float64(t.max->0->Double_0))
                &&& forall|i: int|
                    0 <= i < rows.len() && #[trigger] rows[i] is Float64 ==> double_line(
                        t.min->0->Double_0,
                    ) <= double_line(rows[i]->Float64_0) <= double_line(t.max->0->Double_0)
            }
        }),
{
    let dt = DataType::Float64;
    lemma_bound_source(dt, index, rows);
    let t = stats::with_cells(dt, stats::no_stats(index), rows);
    if t.min is Some {
        let i = choose|i: int|
            0 <= i < rows.len() && #[trigger] rows[i] != CellView::Null && stats::stat_value(
                dt,
                rows[i],
            ) == t.min;
        let j = choose|j: int|
            0 <= j < rows.len() && #[trigger] rows[j] != CellView::Null && stats::stat_value(
                dt,
                rows[j],
            ) == t.max;
        assert(rows[i] is Float64 && rows[j] is Float64);
        assert(rows.contains(rows[i]) && rows.contains(rows[j]));
    }
    assert forall|i: int| 0 <= i < rows.len() && #[trigger] rows[i] is Float64 implies {
        &&& t.min is Some
        &&& t.max is Some
        &&& double_line(t.min->0->Double_0) <= double_line(rows[i]->Float64_0)
            <= double_line(t.max->0->Double_0)
    } by {
        lemma_bound(dt, index, rows, i);
        lemma_double_order(rows[i]->Float64_0, t.min->0->Double_0);
        lemma_double_order(rows[i]->Float64_0, t.max->0->Double_0);
    }
}

/// No bounds are kept of bytes, of wide decimals and of timestamps in nanoseconds.
pub proof fn lemma_no_bounds(dt: DataType, index: nat, rows: Seq<CellView>)
    requires
        dt == DataType::Binary || (dt is Decimal128 && dt->Decimal128_0 > 18) || (dt is Timestamp
            && dt->Timestamp_0 == TimeUnit::Nanosecond),
    ensures
        stats::with_cells(dt, stats::no_stats(index), rows).min is None,
        stats::with_cells(dt, stats::no_stats(index), rows).max is None,
{
    lemma_bound_source(dt, index, rows);
}

/// Comparing two whole numbers of one kind tells which is less.
pub proof fn lemma_compared(a: &Value, b: &Value, r: Option<Ordering>)
    requires
        call_ensures(stats::compare_values, (a, b), r),
    ensures
        a@ is TinyInt && b@ is TinyInt ==> {
            &&& r is Some
            &&& r->0 == Ordering::Less <==> a@->TinyInt_0 < b@->TinyInt_0
            &&& r->0 == Ordering::Equal <==> a@->TinyInt_0 == b@->TinyInt_0
            &&& r->0 == Ordering::Greater <==> a@->TinyInt_0 > b@->TinyInt_0
        },
        a@ is SmallInt && b@ is SmallInt ==> {
            &&& r is Some
            &&& r->0 == Ordering::Less <==> a@->SmallInt_0 < b@->SmallInt_0
            &&& r->0 == Ordering::Equal <==> a@->SmallInt_0 == b@->SmallInt_0
            &&& r->0 == Ordering::Greater <==> a@->SmallInt_0 > b@->SmallInt_0
        },
        a@ is Integer && b@ is Integer ==> {
            &&& r is Some
            &&& r->0 == Ordering::Less <==> a@->Integer_0 < b@->Integer_0
            &&& r->0 == Ordering::Equal <==> a@->Integer_0 == b@->Integer_0
            &&& r->0 == Ordering::Greater <==> a@->Integer_0 > b@->Integer_0
        },
        a@ is BigInt && b@ is BigInt ==> {
            &&& r is Some
            &&& r->0 == Ordering::Less <==> a@->BigInt_0 < b@->BigInt_0
            &&& r->0 == Ordering::Equal <==> a@->BigInt_0 == b@->BigInt_0
            &&& r->0 == Ordering::Greater <==> a@->BigInt_0 > b@->BigInt_0
        },
        a@ is Date && b@ is Date ==> {
            &&& r is Some
            &&& r->0 == Ordering::Less <==> a@->Date_0 < b@->Date_0
            &&& r->0 == Ordering::Equal <==> a@->Date_0 == b@->Date_0
            &&& r->0 == Ordering::Greater <==> a@->Date_0 > b@->Date_0
        },
        a@ is Time && b@ is Time ==> {
            &&& r is Some
            &&& r->0 == Ordering::Less <==> a@->Time_0 < b@->Time_0
            &&& r->0 == Ordering::Equal <==> a@->Time_0 == b@->Time_0
            &&& r->0 == Ordering::Greater <==> a@->Time_0 > b@->Time_0
        },
        a@ is DecimalCompact && b@ is DecimalCompact ==> {
            &&& r is Some
            &&& r->0 == Ordering::Less <==> a@->DecimalCompact_0 < b@->DecimalCompact_0
            &&& r->0 == Ordering::Equal <==> a@->DecimalCompact_0 == b@->DecimalCompact_0
            &&& r->0 == Ordering::Greater <==> a@->DecimalCompact_0 > b@->DecimalCompact_0
        },
        a@ is TimestampMillis && b@ is TimestampMillis ==> {
            &&& r is Some
            &&& r->0 == Ordering::Less <==> a@->TimestampMillis_0 < b@->TimestampMillis_0
            &&& r->0 == Ordering::Equal <==> a@->TimestampMillis_0 == b@->TimestampMillis_0
            &&& r->0 == Ordering::Greater <==> a@->TimestampMillis_0 > b@->TimestampMillis_0
        },
        a@ is TimestampMicros && b@ is TimestampMicros ==> {
            &&& r is Some
            &&& r->0 == Ordering::Less <==> a@->TimestampMicros_0 < b@->TimestampMicros_0
            &&& r->0 == Ordering::Equal <==> a@->TimestampMicros_0 == b@->TimestampMicros_0
            &&& r->0 == Ordering::Greater <==> a@->TimestampMicros_0 > b@->TimestampMicros_0
        },
        a@ is String && b@ is String ==> {
            &&& r is Some
            &&& r->0 == Ordering::Less <==> text_before(a@->String_0, b@->String_0)
            &&& r->0 == Ordering::Equal <==> a@->String_0 == b@->String_0
            &&& r->0 == Ordering::Greater <==> text_before(b@->String_0, a@->String_0)
        },
        a@ is Null || b@ is Null ==> r is None,
{
    if a@ is String && b@ is String {
        lemma_text_order(a@->String_0, b@->String_0);
    }
}

/// The value of one more row: a null is counted, and any other value may become a bound; no
/// value that was between the bounds leaves them.
pub proof fn lemma_row_taken(dt: DataType, t: ColumnStatsView, v: ValueView)
    ensures
        ({
            let now = stats::with_row(dt, t, v);
            &&& now.column_index == t.column_index
            &&& v is Null ==> now.null_count == t.null_count + 1 && now.min == t.min && now.max
                == t.max
            &&& !(v is Null) ==> now.null_count == t.null_count
            &&& !(v is Null) && stats::supported(dt) ==> {
                &&& now.min is Some && now.max is Some
                &&& now.min == t.min || now.min == Some(v)
                &&& now.max == t.max || now.max == Some(v)
                &&& stats::value_relation(v, now.min->0) != Some(Relation::Below)
                &&& stats::value_relation(v, now.max->0) != Some(Relation::Above)
                &&& t.min is Some ==> stats::value_relation(t.min->0, now.min->0) != Some(
                    Relation::Below,
                )
                &&& t.max is Some ==> stats::value_relation(t.max->0, now.max->0) != Some(
                    Relation::Above,
                )
            }
            &&& !(v is Null) && !stats::supported(dt) ==> now == t
        }),
{
    stats::lemma_not_below_self(v);
    if t.min is Some {
        stats::lemma_not_below_self(t.min->0);
        lemma_order_turned(v, t.min->0);
    }
    if t.max is Some {
        stats::lemma_not_below_self(t.max->0);
        lemma_order_turned(v, t.max->0);
    }
}

} // verus!
