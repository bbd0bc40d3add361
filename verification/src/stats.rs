//! Per-column statistics of a row group: the number of nulls, the least and the
//! greatest value.

use crate::bytes;
use crate::error::Error;
use crate::schema;
use crate::schema::ColumnMeta;
use crate::types;
use crate::types::{DataType, TimeUnit};
use crate::values;
use crate::values::{Cell, CellView, Value, ValueView};
use crate::varint;
use std::cmp::Ordering;
use vstd::prelude::*;

verus! {

/// How one value relates to another.
#[derive(Debug, Clone, Copy, PartialEq, Eq, Structural)]
pub enum Relation {
    Below,
    Same,
    Above,
}

/// The statistics of a column in a row group.
#[derive(Debug, Clone, PartialEq, Eq)]
pub struct ColumnStats {
    pub column_index: usize,
    pub null_count: usize,
    pub min: Option<Value>,
    pub max: Option<Value>,
}

/// The mathematical content of [`ColumnStats`].
#[verifier::ext_equal]
pub struct ColumnStatsView {
    pub column_index: nat,
    pub null_count: nat,
    pub min: Option<ValueView>,
    pub max: Option<ValueView>,
}

/// The contents of a value that may be missing.
pub open spec fn value_view(v: Option<Value>) -> Option<ValueView> {
    match v {
        Some(x) => Some(x@),
        None => None,
    }
}

impl View for ColumnStats {
    type V = ColumnStatsView;

    open spec fn view(&self) -> ColumnStatsView {
        ColumnStatsView {
            column_index: self.column_index as nat,
            null_count: self.null_count as nat,
            min: value_view(self.min),
            max: value_view(self.max),
        }
    }
}

/// The contents of a list of statistics.
pub open spec fn stats_views(v: Seq<ColumnStats>) -> Seq<ColumnStatsView> {
    Seq::new(v.len(), |i: int| v[i]@)
}

/// Whether statistics are kept for columns of the type.
pub open spec fn supported(dt: DataType) -> bool {
    match dt {
        DataType::Binary | DataType::Unsupported => false,
        DataType::Decimal128(p, _) => p <= 18,
        _ => true,
    }
}

/// The order of two numbers.
pub open spec fn relation(x: int, y: int) -> Relation {
    if x < y {
        Relation::Below
    } else if x == y {
        Relation::Same
    } else {
        Relation::Above
    }
}

/// The place of a 32-bit float on the number line, by its bits; none where it is
/// not a number. Both zeros are at zero.
pub open spec fn float_place(bits: u32) -> Option<int> {
    let magnitude = bits as int % 0x8000_0000;
    if magnitude > 0x7F80_0000 {
        None
    } else if bits >= 0x8000_0000 {
        Some(-magnitude)
    } else {
        Some(magnitude)
    }
}

/// The place of a 64-bit float on the number line, by its bits; none where it is
/// not a number. Both zeros are at zero.
pub open spec fn double_place(bits: u64) -> Option<int> {
    let magnitude = bits as int % 0x8000_0000_0000_0000;
    if magnitude > 0x7FF0_0000_0000_0000 {
        None
    } else if bits >= 0x8000_0000_0000_0000 {
        Some(-magnitude)
    } else {
        Some(magnitude)
    }
}

/// The order of two places, if both are there.
pub open spec fn place_relation(x: Option<int>, y: Option<int>) -> Option<Relation> {
    if x is Some && y is Some {
        Some(relation(x->0, y->0))
    } else {
        None
    }
}

/// The order of two byte strings: by the first byte in which they differ, the
/// shorter first where one starts with the other.
pub open spec fn bytes_relation(x: Seq<u8>, y: Seq<u8>) -> Relation
    decreases x.len(),
{
    if x.len() == 0 || y.len() == 0 {
        relation(x.len() as int, y.len() as int)
    } else if x[0] != y[0] {
        relation(x[0] as int, y[0] as int)
    } else {
        bytes_relation(x.drop_first(), y.drop_first())
    }
}

/// The order of two values, where they are of the same kind and have one.
pub open spec fn value_relation(a: ValueView, b: ValueView) -> Option<Relation> {
    match (a, b) {
        (ValueView::Boolean(x), ValueView::Boolean(y)) => Some(
            relation(
                if x {
                    1
                } else {
                    0
                },
                if y {
                    1
                } else {
                    0
                },
            ),
        ),
        (ValueView::TinyInt(x), ValueView::TinyInt(y)) => Some(relation(x as int, y as int)),
        (ValueView::SmallInt(x), ValueView::SmallInt(y)) => Some(relation(x as int, y as int)),
        (ValueView::Integer(x), ValueView::Integer(y)) => Some(relation(x as int, y as int)),
        (ValueView::BigInt(x), ValueView::BigInt(y)) => Some(relation(x as int, y as int)),
        (ValueView::Float(x), ValueView::Float(y)) => place_relation(
            float_place(x),
            float_place(y),
        ),
        (ValueView::Double(x), ValueView::Double(y)) => place_relation(
            double_place(x),
            double_place(y),
        ),
        (ValueView::Date(x), ValueView::Date(y)) => Some(relation(x as int, y as int)),
        (ValueView::Time(x), ValueView::Time(y)) => Some(relation(x as int, y as int)),
        (ValueView::DecimalCompact(x), ValueView::DecimalCompact(y)) => Some(
            relation(x as int, y as int),
        ),
        (ValueView::TimestampMillis(x), ValueView::TimestampMillis(y)) => Some(
            relation(x as int, y as int),
        ),
        (ValueView::TimestampMicros(x), ValueView::TimestampMicros(y)) => Some(
            relation(x as int, y as int),
        ),
        (
            ValueView::TimestampNanos { millis: m, nanos_of_milli: n },
            ValueView::TimestampNanos { millis: p, nanos_of_milli: q },
        ) => Some(
            if m != p {
                relation(m as int, p as int)
            } else {
                relation(n as int, q as int)
            },
        ),
        (ValueView::String(x), ValueView::String(y)) => Some(bytes_relation(x, y)),
        _ => None,
    }
}

/// The least value so far, with one more taken in.
pub open spec fn with_min(min: Option<ValueView>, v: ValueView) -> Option<ValueView> {
    match min {
        None => Some(v),
        Some(cur) => if value_relation(v, cur) == Some(Relation::Below) {
            Some(v)
        } else {
            Some(cur)
        },
    }
}

/// The greatest value so far, with one more taken in.
pub open spec fn with_max(max: Option<ValueView>, v: ValueView) -> Option<ValueView> {
    match max {
        None => Some(v),
        Some(cur) => if value_relation(v, cur) == Some(Relation::Above) {
            Some(v)
        } else {
            Some(cur)
        },
    }
}

/// Statistics with one more value taken in.
pub open spec fn with_value(t: ColumnStatsView, v: ValueView) -> ColumnStatsView {
    ColumnStatsView { min: with_min(t.min, v), max: with_max(t.max, v), ..t }
}

/// Statistics of a column of the type with the value of one more row taken in.
pub open spec fn with_row(dt: DataType, t: ColumnStatsView, v: ValueView) -> ColumnStatsView {
    if v == ValueView::Null {
        ColumnStatsView { null_count: t.null_count + 1, ..t }
    } else if supported(dt) {
        with_value(t, v)
    } else {
        t
    }
}

/// The value that statistics take from a cell, if any. Timestamps in nanoseconds
/// are only looked at in their legacy form.
pub open spec fn stat_value(dt: DataType, c: CellView) -> Option<ValueView> {
    match (dt, c) {
        (DataType::Boolean, CellView::Boolean(_)) => Some(values::value_of(dt, c)),
        (DataType::Int8, CellView::Int8(_)) => Some(values::value_of(dt, c)),
        (DataType::Int16, CellView::Int16(_)) => Some(values::value_of(dt, c)),
        (DataType::Int32, CellView::Int32(_)) => Some(values::value_of(dt, c)),
        (DataType::Int64, CellView::Int64(_)) => Some(values::value_of(dt, c)),
        (DataType::Float32, CellView::Float32(_)) => Some(values::value_of(dt, c)),
        (DataType::Float64, CellView::Float64(_)) => Some(values::value_of(dt, c)),
        (DataType::Date32, CellView::Date32(_)) => Some(values::value_of(dt, c)),
        (DataType::Time32(_), CellView::Time32(_)) => Some(values::value_of(dt, c)),
        (DataType::Utf8, CellView::Utf8(_)) => Some(values::value_of(dt, c)),
        (DataType::Decimal128(p, _), CellView::Decimal128(_)) => if p <= 18 {
            Some(values::value_of(dt, c))
        } else {
            None
        },
        (DataType::Timestamp(TimeUnit::Millisecond, _), CellView::TimestampMillis(_)) => Some(
            values::value_of(dt, c),
        ),
        (DataType::Timestamp(TimeUnit::Microsecond, _), CellView::TimestampMicros(_)) => Some(
            values::value_of(dt, c),
        ),
        (DataType::LegacyTimestampNanos, CellView::LegacyTimestampNanos(Some(_), Some(_))) => Some(
            values::value_of(dt, c),
        ),
        _ => None,
    }
}

/// Statistics of a column of the type with one more cell taken in.
pub open spec fn with_cell(dt: DataType, t: ColumnStatsView, c: CellView) -> ColumnStatsView {
    if c == CellView::Null {
        ColumnStatsView { null_count: t.null_count + 1, ..t }
    } else if supported(dt) && stat_value(dt, c) is Some {
        with_value(t, stat_value(dt, c)->0)
    } else {
        t
    }
}

/// Statistics of a column of the type with more cells taken in.
pub open spec fn with_cells(
    dt: DataType,
    t: ColumnStatsView,
    rows: Seq<CellView>,
) -> ColumnStatsView
    decreases rows.len(),
{
    if rows.len() == 0 {
        t
    } else {
        with_cell(dt, with_cells(dt, t, rows.drop_last()), rows.last())
    }
}

/// Statistics of a column of which nothing was seen.
pub open spec fn no_stats(column_index: nat) -> ColumnStatsView {
    ColumnStatsView { column_index, null_count: 0, min: None, max: None }
}

/// The bytes of a column's statistics.
pub open spec fn stat_bytes(t: ColumnStatsView) -> Seq<u8> {
    varint::leb(t.column_index) + varint::leb(t.null_count) + (if t.min is Some && t.max is Some {
        values::value_bytes(t.min->0) + values::value_bytes(t.max->0)
    } else {
        Seq::empty()
    })
}

/// The bytes of the statistics of the first `n` columns in a list.
pub open spec fn stat_list_bytes(stats: Seq<ColumnStatsView>, n: nat) -> Seq<u8>
    decreases n,
{
    if n == 0 {
        Seq::empty()
    } else {
        stat_list_bytes(stats, (n - 1) as nat) + stat_bytes(stats[n - 1])
    }
}

/// The bytes of a list of statistics.
pub open spec fn stats_bytes(stats: Seq<ColumnStatsView>) -> Seq<u8> {
    varint::leb(stats.len()) + stat_list_bytes(stats, stats.len())
}

/// Statistics that can be written: the numbers fit in 32 bits, and the values are
/// of their column's type.
pub open spec fn writable_stat(t: ColumnStatsView, dts: Seq<DataType>) -> bool {
    &&& t.column_index < dts.len()
    &&& t.column_index <= u32::MAX
    &&& t.null_count <= u32::MAX
    &&& t.min is Some && t.max is Some ==> {
        &&& values::value_matches(dts[t.column_index as int], t.min->0)
        &&& values::value_matches(dts[t.column_index as int], t.max->0)
        &&& values::value_fits(t.min->0)
        &&& values::value_fits(t.max->0)
    }
}

/// A list of statistics that can be written.
pub open spec fn writable_stats(stats: Seq<ColumnStatsView>, dts: Seq<DataType>) -> bool {
    &&& stats.len() <= u32::MAX
    &&& forall|i: int| 0 <= i < stats.len() ==> writable_stat(#[trigger] stats[i], dts)
}

/// The value of the type at `p` and the position behind it.
pub open spec fn stat_value_at(dt: DataType, s: Seq<u8>, p: int) -> Result<
    (ValueView, int),
    Error,
> {
    let w = types::width(dt);
    if w > 0 {
        if p + w > s.len() {
            Err(Error::StatsFixedEof)
        } else {
            Ok(
                (
                    match dt {
                        DataType::Timestamp(TimeUnit::Nanosecond, _) => ValueView::Null,
                        _ => values::typed_value(dt, s.subrange(p, p + w)),
                    },
                    p + w,
                ),
            )
        }
    } else {
        let q = varint::parse_end(s, p, 5);
        match varint::parse_u32(s, p) {
            Err(e) => Err(e),
            Ok(len) => if q + len > s.len() {
                Err(Error::StatsVariableEof)
            } else {
                Ok(
                    (
                        match dt {
                            DataType::Utf8 => ValueView::String(s.subrange(q, q + len)),
                            _ => ValueView::Null,
                        },
                        q + len,
                    ),
                )
            },
        }
    }
}

/// The statistics of one column at `p`, and the position behind them.
#[verifier::opaque]
pub open spec fn parse_stat(s: Seq<u8>, p: int, dts: Seq<DataType>, num_rows: nat) -> Result<
    (ColumnStatsView, int),
    Error,
> {
    match varint::parse_u32(s, p) {
        Err(e) => Err(e),
        Ok(index) => {
            let p1 = varint::parse_end(s, p, 5);
            if index >= dts.len() {
                Err(Error::StatsColumnIndex)
            } else {
                match varint::parse_u32(s, p1) {
                    Err(e) => Err(e),
                    Ok(nulls) => {
                        let p2 = varint::parse_end(s, p1, 5);
                        let dt = dts[index as int];
                        if nulls > num_rows {
                            Err(Error::StatsNullCount)
                        } else if nulls == num_rows {
                            Ok(
                                (
                                    ColumnStatsView {
                                        column_index: index as nat,
                                        null_count: nulls as nat,
                                        min: None,
                                        max: None,
                                    },
                                    p2,
                                ),
                            )
                        } else {
                            match stat_value_at(dt, s, p2) {
                                Err(e) => Err(e),
                                Ok((min, p3)) => match stat_value_at(dt, s, p3) {
                                    Err(e) => Err(e),
                                    Ok((max, p4)) => Ok(
                                        (
                                            ColumnStatsView {
                                                column_index: index as nat,
                                                null_count: nulls as nat,
                                                min: Some(min),
                                                max: Some(max),
                                            },
                                            p4,
                                        ),
                                    ),
                                },
                            }
                        }
                    },
                }
            }
        },
    }
}

/// Where reading the statistics of one column at `p` stops when it fails: behind the
/// last number or value that was read.
#[verifier::opaque]
pub open spec fn stat_stop(s: Seq<u8>, p: int, dts: Seq<DataType>, num_rows: nat) -> int {
    let p1 = varint::parse_end(s, p, 5);
    let p2 = varint::parse_end(s, p1, 5);
    match varint::parse_u32(s, p) {
        Err(_) => p1,
        Ok(index) => if index >= dts.len() {
            p1
        } else {
            match (varint::parse_u32(s, p1), stat_value_at(dts[index as int], s, p2)) {
                (Ok(nulls), Ok((_, p3))) => if nulls < num_rows {
                    p3
                } else {
                    p2
                },
                _ => p2,
            }
        },
    }
}

/// The statistics of `n` columns from `p` on, behind those in `acc`, and the
/// position behind them.
pub open spec fn stats_from(
    s: Seq<u8>,
    p: int,
    dts: Seq<DataType>,
    num_rows: nat,
    n: nat,
    acc: Seq<ColumnStatsView>,
) -> Result<(Seq<ColumnStatsView>, int), Error>
    decreases n,
{
    if n == 0 {
        Ok((acc, p))
    } else {
        match parse_stat(s, p, dts, num_rows) {
            Err(e) => Err(e),
            Ok((t, q)) => stats_from(s, q, dts, num_rows, (n - 1) as nat, acc.push(t)),
        }
    }
}

/// The list of statistics at `p`, and the position behind it.
pub open spec fn parse_stats(s: Seq<u8>, p: int, dts: Seq<DataType>, num_rows: nat) -> Result<
    (Seq<ColumnStatsView>, int),
    Error,
> {
    match varint::parse_u32(s, p) {
        Err(e) => Err(e),
        Ok(n) => stats_from(
            s,
            varint::parse_end(s, p, 5),
            dts,
            num_rows,
            n as nat,
            Seq::empty(),
        ),
    }
}

/// Where reading the statistics of `n` columns from `p` on stops when it fails.
pub open spec fn list_stop(
    s: Seq<u8>,
    p: int,
    dts: Seq<DataType>,
    num_rows: nat,
    n: nat,
) -> int
    decreases n,
{
    if n == 0 {
        p
    } else {
        match parse_stat(s, p, dts, num_rows) {
            Err(_) => stat_stop(s, p, dts, num_rows),
            Ok((_, q)) => list_stop(s, q, dts, num_rows, (n - 1) as nat),
        }
    }
}

/// Where reading a list of statistics at `p` stops when it fails.
pub open spec fn stats_stop(s: Seq<u8>, p: int, dts: Seq<DataType>, num_rows: nat) -> int {
    match varint::parse_u32(s, p) {
        Err(_) => varint::parse_end(s, p, 5),
        Ok(n) => list_stop(s, varint::parse_end(s, p, 5), dts, num_rows, n as nat),
    }
}

/// Statistics that are read back as they were written: the least and the greatest
/// value are there exactly if some row is not null, and the column's type is not
/// a timestamp in nanoseconds, whose values are not kept.
pub open spec fn complete_stat(t: ColumnStatsView, dts: Seq<DataType>, num_rows: nat) -> bool {
    &&& writable_stat(t, dts)
    &&& t.null_count <= num_rows
    &&& (t.min is Some) == (t.null_count < num_rows)
    &&& (t.max is Some) == (t.null_count < num_rows)
    &&& supported(dts[t.column_index as int])
    &&& is_nanos(dts[t.column_index as int]) ==> t.min is None && t.max is None
}

proof fn lemma_stat_value_round_trip(dt: DataType, v: ValueView, s: Seq<u8>, p: int)
    requires
        values::value_matches(dt, v),
        values::value_fits(v),
        supported(dt),
        !is_nanos(dt),
        bytes::has_at(s, p, values::value_bytes(v)),
    ensures
        stat_value_at(dt, s, p) == Ok::<(ValueView, int), Error>(
            (v, p + values::value_bytes(v).len()),
        ),
{
    values::lemma_value_round_trip(dt, v, s, p, Error::StatsFixedEof);
    values::lemma_value_bytes_len(dt, v);
    if types::width(dt) <= 0 {
        let b = values::bytes_of(v);
        bytes::lemma_has_at_split(s, p, varint::leb(b.len()), b);
        varint::lemma_u32_round_trip(s, p, b.len() as u32);
    }
}

proof fn lemma_stat_round_trip(
    t: ColumnStatsView,
    dts: Seq<DataType>,
    num_rows: nat,
    s: Seq<u8>,
    p: int,
)
    requires
        complete_stat(t, dts, num_rows),
        bytes::has_at(s, p, stat_bytes(t)),
    ensures
        parse_stat(s, p, dts, num_rows) == Ok::<(ColumnStatsView, int), Error>(
            (t, p + stat_bytes(t).len()),
        ),
{
    reveal(parse_stat);
    let a = varint::leb(t.column_index);
    let b = varint::leb(t.null_count);
    let rest = if t.min is Some && t.max is Some {
        values::value_bytes(t.min->0) + values::value_bytes(t.max->0)
    } else {
        Seq::empty()
    };
    bytes::lemma_has_at_split(s, p, a + b, rest);
    bytes::lemma_has_at_split(s, p, a, b);
    varint::lemma_u32_round_trip(s, p, t.column_index as u32);
    varint::lemma_u32_round_trip(s, p + a.len(), t.null_count as u32);
    if t.min is Some {
        let dt = dts[t.column_index as int];
        let q = p + a.len() + b.len();
        let x = values::value_bytes(t.min->0);
        bytes::lemma_has_at_split(s, q, x, values::value_bytes(t.max->0));
        lemma_stat_value_round_trip(dt, t.min->0, s, q);
        lemma_stat_value_round_trip(dt, t.max->0, s, q + x.len());
    }
}

proof fn lemma_stat_list_prefix(
    stats: Seq<ColumnStatsView>,
    s: Seq<u8>,
    p: int,
    k: nat,
    n: nat,
)
    requires
        k <= n,
        bytes::has_at(s, p, stat_list_bytes(stats, n)),
    ensures
        bytes::has_at(s, p, stat_list_bytes(stats, k)),
    decreases n,
{
    if k < n {
        bytes::lemma_has_at_split(
            s,
            p,
            stat_list_bytes(stats, (n - 1) as nat),
            stat_bytes(stats[n - 1]),
        );
        lemma_stat_list_prefix(stats, s, p, k, (n - 1) as nat);
    }
}

proof fn lemma_stat_list_round_trip(
    stats: Seq<ColumnStatsView>,
    dts: Seq<DataType>,
    num_rows: nat,
    s: Seq<u8>,
    p: int,
    k: nat,
    acc: Seq<ColumnStatsView>,
)
    requires
        forall|i: int|
            0 <= i < stats.len() ==> complete_stat(#[trigger] stats[i], dts, num_rows),
        k <= stats.len(),
        bytes::has_at(s, p, stat_list_bytes(stats, stats.len())),
        acc == stats.take(k as int),
    ensures
        stats_from(
            s,
            p + stat_list_bytes(stats, k).len(),
            dts,
            num_rows,
            (stats.len() - k) as nat,
            acc,
        ) == Ok::<(Seq<ColumnStatsView>, int), Error>(
            (stats, p + stat_list_bytes(stats, stats.len()).len()),
        ),
    decreases stats.len() - k,
{
    if k < stats.len() {
        lemma_stat_list_prefix(stats, s, p, k + 1, stats.len());
        bytes::lemma_has_at_split(
            s,
            p,
            stat_list_bytes(stats, k),
            stat_bytes(stats[k as int]),
        );
        lemma_stat_round_trip(
            stats[k as int],
            dts,
            num_rows,
            s,
            p + stat_list_bytes(stats, k).len(),
        );
        assert(acc.push(stats[k as int]) =~= stats.take((k + 1) as int));
        lemma_stat_list_round_trip(
            stats,
            dts,
            num_rows,
            s,
            p,
            k + 1,
            acc.push(stats[k as int]),
        );
    } else {
        assert(acc =~= stats);
    }
}

/// Reading where the bytes of complete statistics stand gives the statistics back
/// and stops right behind them.
pub proof fn lemma_stats_round_trip(
    stats: Seq<ColumnStatsView>,
    dts: Seq<DataType>,
    num_rows: nat,
    s: Seq<u8>,
    p: int,
)
    requires
        stats.len() <= u32::MAX,
        forall|i: int|
            0 <= i < stats.len() ==> complete_stat(#[trigger] stats[i], dts, num_rows),
        bytes::has_at(s, p, stats_bytes(stats)),
    ensures
        parse_stats(s, p, dts, num_rows) == Ok::<(Seq<ColumnStatsView>, int), Error>(
            (stats, p + stats_bytes(stats).len()),
        ),
{
    let a = varint::leb(stats.len());
    bytes::lemma_has_at_split(s, p, a, stat_list_bytes(stats, stats.len()));
    varint::lemma_u32_round_trip(s, p, stats.len() as u32);
    assert(stats.take(0) =~= Seq::<ColumnStatsView>::empty());
    lemma_stat_list_round_trip(stats, dts, num_rows, s, p + a.len(), 0, Seq::empty());
}

/// The values that statistics take from a column.
pub open spec fn seen(dt: DataType, rows: Seq<CellView>) -> Seq<ValueView>
    decreases rows.len(),
{
    if rows.len() == 0 {
        Seq::empty()
    } else {
        let before = seen(dt, rows.drop_last());
        if rows.last() != CellView::Null && supported(dt) && stat_value(dt, rows.last()) is Some {
            before.push(stat_value(dt, rows.last())->0)
        } else {
            before
        }
    }
}

/// How many cells are null.
pub open spec fn null_total(rows: Seq<CellView>) -> nat
    decreases rows.len(),
{
    if rows.len() == 0 {
        0
    } else if rows.last() == CellView::Null {
        null_total(rows.drop_last()) + 1
    } else {
        null_total(rows.drop_last())
    }
}

/// Whether these are the least and the greatest of the values. A value that is not
/// a number is neither below nor above any other.
pub open spec fn bounds(t: ColumnStatsView, vs: Seq<ValueView>) -> bool {
    if vs.len() == 0 {
        t.min is None && t.max is None
    } else {
        &&& t.min is Some && vs.contains(t.min->0)
        &&& t.max is Some && vs.contains(t.max->0)
        &&& forall|i: int|
            0 <= i < vs.len() ==> value_relation(#[trigger] vs[i], t.min->0) != Some(
                Relation::Below,
            ) && value_relation(vs[i], t.max->0) != Some(Relation::Above)
    }
}

/// The statistics of a column count its nulls, and their least and greatest value are
/// values of the column that no other lies below or above.
pub proof fn lemma_column_stats(dt: DataType, index: nat, rows: Seq<CellView>)
    ensures
        with_cells(dt, no_stats(index), rows).column_index == index,
        with_cells(dt, no_stats(index), rows).null_count == null_total(rows),
        bounds(with_cells(dt, no_stats(index), rows), seen(dt, rows)),
    decreases rows.len(),
{
    if rows.len() > 0 {
        lemma_column_stats(dt, index, rows.drop_last());
        let t = with_cells(dt, no_stats(index), rows.drop_last());
        let vs = seen(dt, rows.drop_last());
        if rows.last() != CellView::Null && supported(dt) && stat_value(dt, rows.last()) is Some {
            lemma_bounds_step(t, vs, stat_value(dt, rows.last())->0);
        }
    }
}

proof fn lemma_bounds_step(t: ColumnStatsView, vs: Seq<ValueView>, v: ValueView)
    requires
        bounds(t, vs),
    ensures
        bounds(with_value(t, v), vs.push(v)),
{
    let now = vs.push(v);
    let u = with_value(t, v);
    assert(now[vs.len() as int] == v);
    lemma_not_below_self(v);
    assert(now.contains(v));
    if vs.len() > 0 {
        let i = choose|i: int| 0 <= i < vs.len() && vs[i] == t.min->0;
        assert(now[i] == t.min->0);
        let j = choose|j: int| 0 <= j < vs.len() && vs[j] == t.max->0;
        assert(now[j] == t.max->0);
    }
    assert forall|i: int| 0 <= i < now.len() implies value_relation(
        #[trigger] now[i],
        u.min->0,
    ) != Some(Relation::Below) && value_relation(now[i], u.max->0) != Some(Relation::Above) by {
        if i < vs.len() {
            assert(now[i] == vs[i]);
            if value_relation(vs[i], v) == Some(Relation::Below) && value_relation(v, t.min->0)
                == Some(Relation::Below) {
                lemma_below_transitive(vs[i], v, t.min->0);
            }
            if value_relation(vs[i], v) == Some(Relation::Above) && value_relation(v, t.max->0)
                == Some(Relation::Above) {
                lemma_above_transitive(vs[i], v, t.max->0);
            }
        }
    }
}

/// What is below a value below a third is below the third.
pub proof fn lemma_below_transitive(a: ValueView, b: ValueView, c: ValueView)
    requires
        value_relation(a, b) == Some(Relation::Below),
        value_relation(b, c) == Some(Relation::Below),
    ensures
        value_relation(a, c) == Some(Relation::Below),
{
    if a is String {
        lemma_bytes_transitive(a->String_0, b->String_0, c->String_0, Relation::Below);
    }
}

/// What is above a value above a third is above the third.
pub proof fn lemma_above_transitive(a: ValueView, b: ValueView, c: ValueView)
    requires
        value_relation(a, b) == Some(Relation::Above),
        value_relation(b, c) == Some(Relation::Above),
    ensures
        value_relation(a, c) == Some(Relation::Above),
{
    if a is String {
        lemma_bytes_transitive(a->String_0, b->String_0, c->String_0, Relation::Above);
    }
}

proof fn lemma_bytes_transitive(x: Seq<u8>, y: Seq<u8>, z: Seq<u8>, r: Relation)
    requires
        bytes_relation(x, y) == r,
        bytes_relation(y, z) == r,
        r != Relation::Same,
    ensures
        bytes_relation(x, z) == r,
    decreases x.len(),
{
    if x.len() > 0 && y.len() > 0 && z.len() > 0 && x[0] == y[0] && y[0] == z[0] {
        lemma_bytes_transitive(x.drop_first(), y.drop_first(), z.drop_first(), r);
    }
}

/// No value is below or above itself.
pub proof fn lemma_not_below_self(v: ValueView)
    ensures
        value_relation(v, v) is Some ==> value_relation(v, v)->0 == Relation::Same,
{
    if let ValueView::String(x) = v {
        lemma_bytes_same(x);
    }
}

proof fn lemma_bytes_same(x: Seq<u8>)
    ensures
        bytes_relation(x, x) == Relation::Same,
    decreases x.len(),
{
    if x.len() > 0 {
        lemma_bytes_same(x.drop_first());
    }
}

/// Statistics whose values are of the column's type.
pub open spec fn sound_stat(dt: DataType, t: ColumnStatsView) -> bool {
    &&& t.min is Some ==> values::value_matches(dt, t.min->0) && values::value_fits(t.min->0)
    &&& t.max is Some ==> values::value_matches(dt, t.max->0) && values::value_fits(t.max->0)
}

/// Taking in cells keeps the column and the values in order, and counts at most
/// one null for each cell.
pub proof fn lemma_with_cells_sound(dt: DataType, t: ColumnStatsView, rows: Seq<CellView>)
    requires
        sound_stat(dt, t),
        forall|i: int| 0 <= i < rows.len() ==> values::cell_fits(#[trigger] rows[i]),
    ensures
        sound_stat(dt, with_cells(dt, t, rows)),
        with_cells(dt, t, rows).column_index == t.column_index,
        t.null_count <= with_cells(dt, t, rows).null_count <= t.null_count + rows.len(),
    decreases rows.len(),
{
    if rows.len() > 0 {
        assert forall|i: int| 0 <= i < rows.drop_last().len() implies values::cell_fits(
            #[trigger] rows.drop_last()[i],
        ) by {
            assert(rows.drop_last()[i] == rows[i]);
        }
        lemma_with_cells_sound(dt, t, rows.drop_last());
        assert(values::cell_fits(rows[rows.len() - 1]));
    }
}

/// A timestamp in nanoseconds, whose values are not looked at.
pub open spec fn is_nanos(dt: DataType) -> bool {
    dt is Timestamp && dt->Timestamp_0 == TimeUnit::Nanosecond
}

/// Whether all cells are nulls.
pub open spec fn only_nulls(rows: Seq<CellView>) -> bool {
    forall|i: int| 0 <= i < rows.len() ==> #[trigger] rows[i] == CellView::Null
}

/// Whether statistics are kept for a column and all its values are looked at.
pub open spec fn is_watched(dt: DataType, rows: Seq<CellView>) -> bool {
    supported(dt) && (is_nanos(dt) ==> only_nulls(rows))
}

/// Every cell of a column is a null or is looked at.
proof fn lemma_all_seen(dt: DataType, rows: Seq<CellView>)
    requires
        is_watched(dt, rows),
        forall|i: int| 0 <= i < rows.len() ==> values::cell_error(dt, #[trigger] rows[i]) is None,
    ensures
        seen(dt, rows).len() + null_total(rows) == rows.len(),
    decreases rows.len(),
{
    if rows.len() > 0 {
        assert(values::cell_error(dt, rows[rows.len() - 1]) is None);
        assert forall|i: int| 0 <= i < rows.drop_last().len() implies values::cell_error(
            dt,
            #[trigger] rows.drop_last()[i],
        ) is None by {
            assert(rows.drop_last()[i] == rows[i]);
        }
        lemma_all_seen(dt, rows.drop_last());
    }
}

proof fn lemma_only_nulls(rows: Seq<CellView>)
    requires
        only_nulls(rows),
    ensures
        null_total(rows) == rows.len(),
    decreases rows.len(),
{
    if rows.len() > 0 {
        assert(rows[rows.len() - 1] == CellView::Null);
        lemma_only_nulls(rows.drop_last());
    }
}

/// The statistics of a column can be read back.
pub proof fn lemma_column_stats_complete(
    dts: Seq<DataType>,
    index: nat,
    rows: Seq<CellView>,
)
    requires
        index < dts.len(),
        index <= u32::MAX,
        rows.len() <= u32::MAX,
        is_watched(dts[index as int], rows),
        forall|i: int|
            0 <= i < rows.len() ==> values::cell_error(dts[index as int], #[trigger] rows[i])
                is None && values::cell_fits(rows[i]),
    ensures
        complete_stat(
            with_cells(dts[index as int], no_stats(index), rows),
            dts,
            rows.len(),
        ),
{
    let dt = dts[index as int];
    lemma_column_stats(dt, index, rows);
    lemma_all_seen(dt, rows);
    if is_nanos(dt) {
        lemma_only_nulls(rows);
    }
    lemma_with_cells_sound(dt, no_stats(index), rows);
}

/// Taking in cells in two parts is taking them in at once.
pub proof fn lemma_with_cells_concat(
    dt: DataType,
    t: ColumnStatsView,
    a: Seq<CellView>,
    b: Seq<CellView>,
)
    ensures
        with_cells(dt, with_cells(dt, t, a), b) == with_cells(dt, t, a + b),
    decreases b.len(),
{
    if b.len() == 0 {
        assert(a + b =~= a);
    } else {
        lemma_with_cells_concat(dt, t, a, b.drop_last());
        assert((a + b).drop_last() =~= a + b.drop_last());
        assert((a + b).last() == b.last());
    }
}

/// Whether statistics are kept for columns of the type.
pub fn supports_stats(dt: &DataType) -> (r: bool)
    ensures
        r == supported(*dt),
{
    match *dt {
        DataType::Binary | DataType::Unsupported => false,
        DataType::Decimal128(p, _) => p <= 18,
        _ => true,
    }
}

fn relate_i64(x: i64, y: i64) -> (r: Relation)
    ensures
        r == relation(x as int, y as int),
{
    if x < y {
        Relation::Below
    } else if x == y {
        Relation::Same
    } else {
        Relation::Above
    }
}

fn relate_bytes(x: &Vec<u8>, y: &Vec<u8>) -> (r: Relation)
    ensures
        r == bytes_relation(x@, y@),
{
    let mut i: usize = 0;
    assert(x@.skip(0) =~= x@);
    assert(y@.skip(0) =~= y@);
    while i < x.len() && i < y.len()
        invariant
            i <= x@.len(),
            i <= y@.len(),
            bytes_relation(x@, y@) == bytes_relation(x@.skip(i as int), y@.skip(i as int)),
        decreases x@.len() - i,
    {
        proof {
            assert(x@.skip(i as int)[0] == x@[i as int]);
            assert(y@.skip(i as int)[0] == y@[i as int]);
            assert(x@.skip(i as int).drop_first() =~= x@.skip(i + 1));
            assert(y@.skip(i as int).drop_first() =~= y@.skip(i + 1));
        }
        if x[i] != y[i] {
            return relate_i64(x[i] as i64, y[i] as i64);
        }
        i = i + 1;
    }
    if x.len() < y.len() {
        Relation::Below
    } else if x.len() == y.len() {
        Relation::Same
    } else {
        Relation::Above
    }
}

fn float_position(bits: u32) -> (r: Option<i64>)
    ensures
        match float_place(bits) {
            None => r is None,
            Some(p) => r is Some && r->0 == p,
        },
{
    let magnitude: u32 = bits % 0x8000_0000;
    if magnitude > 0x7F80_0000 {
        None
    } else if bits >= 0x8000_0000 {
        Some(-(magnitude as i64))
    } else {
        Some(magnitude as i64)
    }
}

fn double_position(bits: u64) -> (r: Option<i64>)
    ensures
        match double_place(bits) {
            None => r is None,
            Some(p) => r is Some && r->0 == p,
        },
{
    let magnitude: u64 = bits % 0x8000_0000_0000_0000;
    if magnitude > 0x7FF0_0000_0000_0000 {
        None
    } else if bits >= 0x8000_0000_0000_0000 {
        Some(-(magnitude as i64))
    } else {
        Some(magnitude as i64)
    }
}

fn relate_positions(x: Option<i64>, y: Option<i64>) -> (r: Option<Relation>)
    ensures
        r == (if x is Some && y is Some {
            Some(relation(x->0 as int, y->0 as int))
        } else {
            None
        }),
{
    match (x, y) {
        (Some(a), Some(b)) => Some(relate_i64(a, b)),
        _ => None,
    }
}

/// The order of two values, where they are of the same kind and have one.
pub fn relate_values(a: &Value, b: &Value) -> (r: Option<Relation>)
    ensures
        r == value_relation(a@, b@),
{
    match (a, b) {
        (Value::Boolean(x), Value::Boolean(y)) => Some(
            if *x == *y {
                Relation::Same
            } else if *x {
                Relation::Above
            } else {
                Relation::Below
            },
        ),
        (Value::TinyInt(x), Value::TinyInt(y)) => Some(relate_i64(*x as i64, *y as i64)),
        (Value::SmallInt(x), Value::SmallInt(y)) => Some(relate_i64(*x as i64, *y as i64)),
        (Value::Integer(x), Value::Integer(y)) => Some(relate_i64(*x as i64, *y as i64)),
        (Value::BigInt(x), Value::BigInt(y)) => Some(relate_i64(*x, *y)),
        (Value::Float(x), Value::Float(y)) => relate_positions(
            float_position(*x),
            float_position(*y),
        ),
        (Value::Double(x), Value::Double(y)) => relate_positions(
            double_position(*x),
            double_position(*y),
        ),
        (Value::Date(x), Value::Date(y)) => Some(relate_i64(*x as i64, *y as i64)),
        (Value::Time(x), Value::Time(y)) => Some(relate_i64(*x as i64, *y as i64)),
        (Value::DecimalCompact(x), Value::DecimalCompact(y)) => Some(relate_i64(*x, *y)),
        (Value::TimestampMillis(x), Value::TimestampMillis(y)) => Some(relate_i64(*x, *y)),
        (Value::TimestampMicros(x), Value::TimestampMicros(y)) => Some(relate_i64(*x, *y)),
        (
            Value::TimestampNanos { millis: m, nanos_of_milli: n },
            Value::TimestampNanos { millis: p, nanos_of_milli: q },
        ) => Some(
            if *m != *p {
                relate_i64(*m, *p)
            } else {
                relate_i64(*n as i64, *q as i64)
            },
        ),
        (Value::String(x), Value::String(y)) => Some(relate_bytes(x, y)),
        _ => None,
    }
}

/// The order of two values as `std` names it.
pub fn compare_values(a: &Value, b: &Value) -> (r: Option<Ordering>)
    ensures
        r == (match value_relation(a@, b@) {
            None => None,
            Some(Relation::Below) => Some(Ordering::Less),
            Some(Relation::Same) => Some(Ordering::Equal),
            Some(Relation::Above) => Some(Ordering::Greater),
        }),
{
    match relate_values(a, b) {
        None => None,
        Some(Relation::Below) => Some(Ordering::Less),
        Some(Relation::Same) => Some(Ordering::Equal),
        Some(Relation::Above) => Some(Ordering::Greater),
    }
}

/// The running statistics of a column.
struct ColTracker {
    column_index: usize,
    data_type: DataType,
    null_count: usize,
    min: Option<Value>,
    max: Option<Value>,
}

impl ColTracker {
    spec fn stats(&self) -> ColumnStatsView {
        ColumnStatsView {
            column_index: self.column_index as nat,
            null_count: self.null_count as nat,
            min: value_view(self.min),
            max: value_view(self.max),
        }
    }

    /// Takes in one value that is not null.
    fn update_min_max(&mut self, value: &Value)
        ensures
            final(self).stats() == with_value(old(self).stats(), value@),
            final(self).data_type == old(self).data_type,
    {
        let update_min: bool = match &self.min {
            None => true,
            Some(cur) => matches!(relate_values(value, cur), Some(Relation::Below)),
        };
        if update_min {
            self.min = Some(value.duplicate());
        }
        let update_max: bool = match &self.max {
            None => true,
            Some(cur) => matches!(relate_values(value, cur), Some(Relation::Above)),
        };
        if update_max {
            self.max = Some(value.duplicate());
        }
    }
}

/// The value that statistics take from a cell, if any.
fn extract_value_for_stats(dt: &DataType, cell: &Cell) -> (r: Option<Value>)
    ensures
        value_view(r) == stat_value(*dt, cell@),
{
    match (*dt, cell) {
        (DataType::Boolean, Cell::Boolean(x)) => Some(Value::Boolean(*x)),
        (DataType::Int8, Cell::Int8(x)) => Some(Value::TinyInt(*x)),
        (DataType::Int16, Cell::Int16(x)) => Some(Value::SmallInt(*x)),
        (DataType::Int32, Cell::Int32(x)) => Some(Value::Integer(*x)),
        (DataType::Int64, Cell::Int64(x)) => Some(Value::BigInt(*x)),
        (DataType::Float32, Cell::Float32(x)) => Some(Value::Float(*x)),
        (DataType::Float64, Cell::Float64(x)) => Some(Value::Double(*x)),
        (DataType::Date32, Cell::Date32(x)) => Some(Value::Date(*x)),
        (DataType::Time32(_), Cell::Time32(x)) => Some(Value::Time(*x)),
        (DataType::Utf8, Cell::Utf8(b)) => Some(Value::String(values::duplicate_bytes(b))),
        (DataType::Decimal128(p, _), Cell::Decimal128(x)) => if p <= 18 {
            Some(Value::DecimalCompact(values::truncate_to_i64(*x)))
        } else {
            None
        },
        (DataType::Timestamp(TimeUnit::Millisecond, _), Cell::TimestampMillis(x)) => Some(
            Value::TimestampMillis(*x),
        ),
        (DataType::Timestamp(TimeUnit::Microsecond, _), Cell::TimestampMicros(x)) => Some(
            Value::TimestampMicros(*x),
        ),
        (DataType::LegacyTimestampNanos, Cell::LegacyTimestampNanos(m, n)) => match (m, n) {
            (Some(millis), Some(nanos)) => Some(
                Value::TimestampNanos { millis: *millis, nanos_of_milli: *nanos },
            ),
            _ => None,
        },
        _ => None,
    }
}

/// Collects statistics of some columns over the rows of a row group.
pub struct StatsCollector {
    trackers: Vec<ColTracker>,
}

impl StatsCollector {
    /// The statistics so far.
    pub closed spec fn stats(&self) -> Seq<ColumnStatsView> {
        Seq::new(self.trackers@.len(), |i: int| self.trackers@[i].stats())
    }

    /// The types of the columns that are looked at.
    pub closed spec fn types(&self) -> Seq<DataType> {
        Seq::new(self.trackers@.len(), |i: int| self.trackers@[i].data_type)
    }

    /// A collector for the given columns and their types.
    pub fn new(columns: &Vec<(usize, DataType)>) -> (c: StatsCollector)
        ensures
            c.stats() == Seq::new(columns@.len(), |i: int| no_stats(columns@[i].0 as nat)),
            c.types() == Seq::new(columns@.len(), |i: int| columns@[i].1),
    {
        let mut trackers: Vec<ColTracker> = Vec::new();
        let mut i: usize = 0;
        while i < columns.len()
            invariant
                i <= columns@.len(),
                trackers@.len() == i,
                forall|j: int|
                    0 <= j < i ==> (#[trigger] trackers@[j]).stats() == no_stats(
                        columns@[j].0 as nat,
                    ) && trackers@[j].data_type == columns@[j].1,
            decreases columns@.len() - i,
        {
            trackers.push(
                ColTracker {
                    column_index: columns[i].0,
                    data_type: columns[i].1,
                    null_count: 0,
                    min: None,
                    max: None,
                },
            );
            i = i + 1;
        }
        let c: StatsCollector = StatsCollector { trackers };
        assert(c.stats() =~= Seq::new(columns@.len(), |i: int| no_stats(columns@[i].0 as nat)));
        assert(c.types() =~= Seq::new(columns@.len(), |i: int| columns@[i].1));
        c
    }

    /// Whether no column is looked at.
    pub fn is_empty(&self) -> (r: bool)
        ensures
            r == (self.stats().len() == 0),
    {
        self.trackers.len() == 0
    }

    /// Takes in the values of one row.
    pub fn update(&mut self, row: &Vec<Value>)
        requires
            forall|i: int|
                0 <= i < old(self).stats().len() ==> (#[trigger] old(self).stats()[i]).column_index
                    < row@.len() && old(self).stats()[i].null_count < usize::MAX,
        ensures
            final(self).types() == old(self).types(),
            final(self).stats() == Seq::new(
                old(self).stats().len(),
                |i: int|
                    with_row(
                        old(self).types()[i],
                        old(self).stats()[i],
                        row@[old(self).stats()[i].column_index as int]@,
                    ),
            ),
    {
        let ghost start = self.stats();
        let ghost dts = self.types();
        let n: usize = self.trackers.len();
        let mut i: usize = 0;
        while i < n
            invariant
                i <= n == self.trackers@.len(),
                start.len() == n,
                dts.len() == n,
                forall|j: int|
                    0 <= j < n ==> (#[trigger] start[j]).column_index < row@.len()
                        && start[j].null_count < usize::MAX,
                forall|j: int|
                    0 <= j < i ==> (#[trigger] self.trackers@[j]).stats() == with_row(
                        dts[j],
                        start[j],
                        row@[start[j].column_index as int]@,
                    ) && self.trackers@[j].data_type == dts[j],
                forall|j: int|
                    i <= j < n ==> (#[trigger] self.trackers@[j]).stats() == start[j]
                        && self.trackers@[j].data_type == dts[j],
            decreases n - i,
        {
            assert(self.trackers@[i as int].stats() == start[i as int]);
            let value: &Value = &row[self.trackers[i].column_index];
            let ghost before = self.trackers@;
            if value.is_null() {
                let count: usize = self.trackers[i].null_count;
                self.trackers[i].null_count = count + 1;
            } else if supports_stats(&self.trackers[i].data_type) {
                self.trackers[i].update_min_max(value);
            }
            assert(forall|j: int|
                0 <= j < n && j != i ==> #[trigger] self.trackers@[j] == before[j]);
            i = i + 1;
        }
        assert(self.types() =~= dts);
        assert(self.stats() =~= Seq::new(
            start.len(),
            |i: int| with_row(dts[i], start[i], row@[start[i].column_index as int]@),
        ));
    }

    /// Takes in the cells of a batch, given by its columns.
    pub fn update_batch(&mut self, columns: &Vec<Vec<Cell>>)
        requires
            forall|i: int|
                0 <= i < old(self).stats().len() ==> (#[trigger] old(self).stats()[i]).column_index
                    < columns@.len() && old(self).stats()[i].null_count
                    + columns@[old(self).stats()[i].column_index as int]@.len() <= usize::MAX,
        ensures
            final(self).types() == old(self).types(),
            final(self).stats() == Seq::new(
                old(self).stats().len(),
                |i: int|
                    with_cells(
                        old(self).types()[i],
                        old(self).stats()[i],
                        values::cells(columns@[old(self).stats()[i].column_index as int]@),
                    ),
            ),
    {
        let ghost start = self.stats();
        let ghost dts = self.types();
        let n: usize = self.trackers.len();
        let mut i: usize = 0;
        while i < n
            invariant
                i <= n == self.trackers@.len(),
                start.len() == n,
                dts.len() == n,
                forall|j: int|
                    0 <= j < n ==> (#[trigger] start[j]).column_index < columns@.len()
                        && start[j].null_count + columns@[start[j].column_index as int]@.len()
                        <= usize::MAX,
                forall|j: int|
                    0 <= j < i ==> (#[trigger] self.trackers@[j]).stats() == with_cells(
                        dts[j],
                        start[j],
                        values::cells(columns@[start[j].column_index as int]@),
                    ) && self.trackers@[j].data_type == dts[j],
                forall|j: int|
                    i <= j < n ==> (#[trigger] self.trackers@[j]).stats() == start[j]
                        && self.trackers@[j].data_type == dts[j],
            decreases n - i,
        {
            assert(self.trackers@[i as int].stats() == start[i as int]);
            let ghost before = self.trackers@;
            let index: usize = self.trackers[i].column_index;
            self.trackers[i].take_column(&columns[index]);
            assert(forall|j: int|
                0 <= j < n && j != i ==> #[trigger] self.trackers@[j] == before[j]);
            i = i + 1;
        }
        assert(self.types() =~= dts);
        assert(self.stats() =~= Seq::new(
            start.len(),
            |i: int|
                with_cells(
                    dts[i],
                    start[i],
                    values::cells(columns@[start[i].column_index as int]@),
                ),
        ));
    }

    /// Returns the statistics and forgets them.
    pub fn finish(&mut self) -> (r: Vec<ColumnStats>)
        ensures
            stats_views(r@) == old(self).stats(),
            final(self).types() == old(self).types(),
            final(self).stats() == Seq::new(
                old(self).stats().len(),
                |i: int| no_stats(old(self).stats()[i].column_index),
            ),
    {
        let mut r: Vec<ColumnStats> = Vec::new();
        let mut i: usize = 0;
        while i < self.trackers.len()
            invariant
                i <= self.trackers@.len(),
                r@.len() == i,
                forall|j: int|
                    0 <= j < i ==> (#[trigger] r@[j])@ == self.trackers@[j].stats(),
            decreases self.trackers@.len() - i,
        {
            let t: &ColTracker = &self.trackers[i];
            r.push(
                ColumnStats {
                    column_index: t.column_index,
                    null_count: t.null_count,
                    min: duplicate_value(&t.min),
                    max: duplicate_value(&t.max),
                },
            );
            i = i + 1;
        }
        assert(stats_views(r@) =~= self.stats());
        self.reset();
        r
    }

    /// Forgets all rows.
    pub fn reset(&mut self)
        ensures
            final(self).types() == old(self).types(),
            final(self).stats() == Seq::new(
                old(self).stats().len(),
                |i: int| no_stats(old(self).stats()[i].column_index),
            ),
    {
        let ghost start = self.stats();
        let ghost dts = self.types();
        let n: usize = self.trackers.len();
        let mut i: usize = 0;
        while i < n
            invariant
                i <= n == self.trackers@.len(),
                start.len() == n,
                dts.len() == n,
                forall|j: int|
                    0 <= j < i ==> (#[trigger] self.trackers@[j]).stats() == no_stats(
                        start[j].column_index,
                    ) && self.trackers@[j].data_type == dts[j],
                forall|j: int|
                    i <= j < n ==> (#[trigger] self.trackers@[j]).stats() == start[j]
                        && self.trackers@[j].data_type == dts[j],
            decreases n - i,
        {
            assert(self.trackers@[i as int].stats() == start[i as int]);
            let ghost before = self.trackers@;
            self.trackers[i].null_count = 0;
            self.trackers[i].min = None;
            self.trackers[i].max = None;
            assert(forall|j: int|
                0 <= j < n && j != i ==> #[trigger] self.trackers@[j] == before[j]);
            i = i + 1;
        }
        assert(self.types() =~= dts);
        assert(self.stats() =~= Seq::new(
            start.len(),
            |i: int| no_stats(start[i].column_index),
        ));
    }
}

impl ColTracker {
    /// Takes in the cells of the column.
    fn take_column(&mut self, column: &Vec<Cell>)
        requires
            old(self).null_count + column@.len() <= usize::MAX,
        ensures
            final(self).stats() == with_cells(
                old(self).data_type,
                old(self).stats(),
                values::cells(column@),
            ),
            final(self).data_type == old(self).data_type,
    {
        let ghost rows = values::cells(column@);
        let ghost start = self.stats();
        let ghost dt = self.data_type;
        let supported: bool = supports_stats(&self.data_type);
        let ghost nulls = self.null_count as int;
        let mut row: usize = 0;
        assert(rows.take(0) =~= Seq::<CellView>::empty());
        while row < column.len()
            invariant
                row <= column@.len(),
                rows == values::cells(column@),
                self.data_type == dt,
                supported == self::supported(dt),
                self.stats() == with_cells(dt, start, rows.take(row as int)),
                self.null_count <= nulls + row,
                nulls + column@.len() <= usize::MAX,
            decreases column@.len() - row,
        {
            proof {
                assert(rows.take(row + 1).drop_last() =~= rows.take(row as int));
                assert(rows.take(row + 1).last() == column@[row as int]@);
            }
            let cell: &Cell = &column[row];
            if let Cell::Null = cell {
                self.null_count = self.null_count + 1;
            } else if supported {
                if let Some(v) = extract_value_for_stats(&self.data_type, cell) {
                    self.update_min_max(&v);
                }
            }
            row = row + 1;
        }
        assert(rows.take(row as int) =~= rows);
    }
}

fn duplicate_value(v: &Option<Value>) -> (r: Option<Value>)
    ensures
        value_view(r) == value_view(*v),
{
    match v {
        Some(x) => Some(x.duplicate()),
        None => None,
    }
}

impl ColumnStats {
    /// A copy of the statistics.
    pub fn duplicate(&self) -> (r: ColumnStats)
        ensures
            r@ == self@,
    {
        ColumnStats {
            column_index: self.column_index,
            null_count: self.null_count,
            min: duplicate_value(&self.min),
            max: duplicate_value(&self.max),
        }
    }
}

/// The bytes of a list of statistics.
pub fn serialize_stats(stats: &Vec<ColumnStats>, schema_columns: &Vec<ColumnMeta>) -> (buf: Vec<
    u8,
>)
    requires
        writable_stats(
            stats_views(stats@),
            schema::column_types(schema::column_metas(schema_columns@)),
        ),
    ensures
        buf@ == stats_bytes(stats_views(stats@)),
{
    let ghost views = stats_views(stats@);
    let mut buf: Vec<u8> = Vec::new();
    varint::encode(&mut buf, stats.len() as u32);
    let ghost base = buf@;
    assert(base =~= varint::leb(views.len()));
    let mut i: usize = 0;
    assert(buf@ =~= base + stat_list_bytes(views, 0));
    while i < stats.len()
        invariant
            i <= stats@.len(),
            views == stats_views(stats@),
            writable_stats(
                views,
                schema::column_types(schema::column_metas(schema_columns@)),
            ),
            buf@ == base + stat_list_bytes(views, i as nat),
        decreases stats@.len() - i,
    {
        let stat: &ColumnStats = &stats[i];
        assert(views[i as int] == stat@);
        let ghost before = buf@;
        varint::encode(&mut buf, stat.column_index as u32);
        varint::encode(&mut buf, stat.null_count as u32);
        if let (Some(min), Some(max)) = (&stat.min, &stat.max) {
            values::write_value(&mut buf, min);
            values::write_value(&mut buf, max);
        }
        proof {
            assert(buf@ =~= before + stat_bytes(stat@));
            assert(buf@ =~= base + stat_list_bytes(views, (i + 1) as nat));
        }
        i = i + 1;
    }
    buf
}

/// Reads a value of the type at `*pos` and moves `*pos` behind it.
fn deserialize_value(data: &[u8], pos: &mut usize, dt: &DataType) -> (r: Result<Value, Error>)
    requires
        *old(pos) <= data@.len(),
    ensures
        match stat_value_at(*dt, data@, *old(pos) as int) {
            Ok((v, end)) => r is Ok && r->Ok_0@ == v && *final(pos) == end && end <= data@.len(),
            Err(e) => r is Err && r->Err_0 == e && *final(pos) == *old(pos),
        },
{
    let w: i32 = types::fixed_width(dt);
    if w > 0 {
        if w as usize > data.len() - *pos {
            return Err(Error::StatsFixedEof);
        }
        let start: usize = *pos;
        *pos = *pos + w as usize;
        if let DataType::Timestamp(TimeUnit::Nanosecond, _) = *dt {
            return Ok(Value::Null);
        }
        Ok(values::read_typed_value(dt, data, start))
    } else {
        proof {
            varint::lemma_parse_end(data@, *pos as int, 5);
        }
        let mut start: usize = *pos;
        let len: usize = match varint::decode(data, &mut start) {
            Err(e) => {
                return Err(e);
            },
            Ok(v) => v as usize,
        };
        if len > data.len() - start {
            return Err(Error::StatsVariableEof);
        }
        *pos = start + len;
        if let DataType::Utf8 = *dt {
            Ok(Value::String(bytes::copy_range(data, start, *pos)))
        } else {
            Ok(Value::Null)
        }
    }
}

/// Reads the statistics of one column at `*pos` and moves `*pos` behind them.
fn deserialize_stat(
    data: &[u8],
    pos: &mut usize,
    schema_columns: &Vec<ColumnMeta>,
    num_rows: usize,
) -> (r: Result<ColumnStats, Error>)
    requires
        *old(pos) <= data@.len(),
    ensures
        match parse_stat(
            data@,
            *old(pos) as int,
            schema::column_types(schema::column_metas(schema_columns@)),
            num_rows as nat,
        ) {
            Ok((t, end)) => r is Ok && r->Ok_0@ == t && *final(pos) == end && end <= data@.len(),
            Err(e) => r is Err && r->Err_0 == e && *final(pos) == stat_stop(
                data@,
                *old(pos) as int,
                schema::column_types(schema::column_metas(schema_columns@)),
                num_rows as nat,
            ),
        },
{
    proof {
        reveal(parse_stat);
        reveal(stat_stop);
        varint::lemma_parse_end(data@, *pos as int, 5);
        varint::lemma_parse_end(data@, varint::parse_end(data@, *pos as int, 5), 5);
    }
    let column_index: usize = match varint::decode(data, pos) {
        Err(e) => {
            return Err(e);
        },
        Ok(v) => v as usize,
    };
    if column_index >= schema_columns.len() {
        return Err(Error::StatsColumnIndex);
    }
    let null_count: usize = match varint::decode(data, pos) {
        Err(e) => {
            return Err(e);
        },
        Ok(v) => v as usize,
    };
    if null_count > num_rows {
        return Err(Error::StatsNullCount);
    }
    if null_count == num_rows {
        return Ok(ColumnStats { column_index, null_count, min: None, max: None });
    }
    let dt: DataType = schema_columns[column_index].data_type;
    assert(dt == schema::column_types(
        schema::column_metas(schema_columns@),
    )[column_index as int]);
    let min: Value = match deserialize_value(data, pos, &dt) {
        Err(e) => {
            return Err(e);
        },
        Ok(v) => v,
    };
    let max: Value = match deserialize_value(data, pos, &dt) {
        Err(e) => {
            return Err(e);
        },
        Ok(v) => v,
    };
    Ok(ColumnStats { column_index, null_count, min: Some(min), max: Some(max) })
}

/// Reads a list of statistics at `*pos` and moves `*pos` behind it.
#[verifier::loop_isolation(false)]
pub fn deserialize_stats(
    data: &[u8],
    pos: &mut usize,
    schema_columns: &Vec<ColumnMeta>,
    num_rows: usize,
) -> (r: Result<Vec<ColumnStats>, Error>)
    ensures
        match parse_stats(
            data@,
            *old(pos) as int,
            schema::column_types(schema::column_metas(schema_columns@)),
            num_rows as nat,
        ) {
            Ok((ts, end)) => r is Ok && stats_views(r->Ok_0@) == ts && *final(pos) == end && end
                <= data@.len(),
            Err(e) => r is Err && r->Err_0 == e && *final(pos) == stats_stop(
                data@,
                *old(pos) as int,
                schema::column_types(schema::column_metas(schema_columns@)),
                num_rows as nat,
            ),
        },
{
    let ghost dts = schema::column_types(schema::column_metas(schema_columns@));
    proof {
        varint::lemma_parse_end(data@, *pos as int, 5);
    }
    let n: u32 = match varint::decode(data, pos) {
        Err(e) => {
            return Err(e);
        },
        Ok(v) => v,
    };
    let ghost start = *pos as int;
    let mut stats: Vec<ColumnStats> = Vec::new();
    let mut left: u32 = n;
    assert(stats_views(stats@) =~= Seq::<ColumnStatsView>::empty());
    while left > 0
        invariant
            left <= n,
            *pos <= data@.len(),
            stats_from(data@, start, dts, num_rows as nat, n as nat, Seq::empty()) == stats_from(
                data@,
                *pos as int,
                dts,
                num_rows as nat,
                left as nat,
                stats_views(stats@),
            ),
            list_stop(data@, start, dts, num_rows as nat, n as nat) == list_stop(
                data@,
                *pos as int,
                dts,
                num_rows as nat,
                left as nat,
            ),
        decreases left,
    {
        let ghost before = stats_views(stats@);
        match deserialize_stat(data, pos, schema_columns, num_rows) {
            Err(e) => {
                return Err(e);
            },
            Ok(t) => {
                stats.push(t);
                assert(stats_views(stats@) =~= before.push(t@));
            },
        }
        left = left - 1;
    }
    Ok(stats)
}

} // verus!
