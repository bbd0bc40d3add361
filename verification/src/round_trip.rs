//! Reading what was written gives back what was there.

use crate::bits;
use crate::bytes;
use crate::decoding;
use crate::decoding::BucketInfo;
use crate::encoding;
use crate::encoding::Limits;
use crate::error::Error;
use crate::format::{ENCODING_ALL_NULL, ENCODING_CONST, ENCODING_DICT, ENCODING_PLAIN};
use crate::types;
use crate::types::DataType;
use crate::values;
use crate::values::{CellView, ValueView};
use crate::varint;
use vstd::prelude::*;

verus! {

/// Cells that a column accepts and that lose nothing when they are stored.
pub open spec fn exact_column(dt: DataType, rows: Seq<CellView>) -> bool {
    &&& encoding::acceptable(dt, rows)
    &&& forall|i: int| 0 <= i < rows.len() ==> values::exact_cell(dt, #[trigger] rows[i])
}

/// The bytes of some value of the type.
pub open spec fn is_value(dt: DataType, b: Seq<u8>) -> bool {
    exists|v: ValueView|
        values::value_matches(dt, v) && values::value_fits(v) && b == #[trigger]
            values::value_bytes(v)
}

/// The value that the bytes spell.
pub open spec fn read_value(dt: DataType, b: Seq<u8>) -> ValueView {
    values::value_at(dt, b, 0, Error::BucketTruncated)->Ok_0.0
}

/// The stored values of a column, row by row.
pub open spec fn stored_rows(dt: DataType, rows: Seq<CellView>) -> Seq<Option<ValueView>> {
    Seq::new(
        rows.len(),
        |i: int| if rows[i] == CellView::Null {
            None
        } else {
            Some(values::value_of(dt, rows[i]))
        },
    )
}

/// The values that a list of byte strings spells.
pub open spec fn read_values(dt: DataType, bs: Seq<Seq<u8>>) -> Seq<ValueView> {
    Seq::new(bs.len(), |i: int| read_value(dt, bs[i]))
}

/// The constant that a reader finds for a column.
pub open spec fn found_const(dt: DataType, rows: Seq<CellView>, limits: Limits) -> ValueView {
    if encoding::kind(dt, rows, limits) == ENCODING_CONST {
        read_value(dt, encoding::vals(dt, rows)[0])
    } else {
        ValueView::Null
    }
}

/// The table that a reader finds for a column.
pub open spec fn found_dict(dt: DataType, rows: Seq<CellView>, limits: Limits) -> Seq<ValueView> {
    if encoding::kind(dt, rows, limits) == ENCODING_DICT {
        read_values(dt, encoding::distinct(encoding::vals(dt, rows)))
    } else {
        Seq::empty()
    }
}

pub proof fn lemma_value_found(dt: DataType, b: Seq<u8>, s: Seq<u8>, p: int, short: Error)
    requires
        is_value(dt, b),
        bytes::has_at(s, p, b),
    ensures
        values::value_at(dt, s, p, short) == Ok::<(ValueView, int), Error>(
            (read_value(dt, b), b.len() as int),
        ),
        b.len() >= 1,
        types::width(dt) > 0 ==> b.len() == types::width(dt),
{
    let v = choose|v: ValueView|
        values::value_matches(dt, v) && values::value_fits(v) && b == #[trigger]
            values::value_bytes(v);
    values::lemma_value_round_trip(dt, v, s, p, short);
    assert(b.subrange(0, b.len() as int) =~= b);
    values::lemma_value_round_trip(dt, v, b, 0, Error::BucketTruncated);
    values::lemma_value_bytes_len(dt, v);
}

proof fn lemma_stored_is_value(dt: DataType, c: CellView)
    requires
        values::cell_error(dt, c) is None,
        values::cell_fits(c),
        c != CellView::Null,
    ensures
        is_value(dt, values::stored(dt, c)),
        read_value(dt, values::stored(dt, c)) == values::value_of(dt, c),
{
    values::lemma_value_of_matches(dt, c);
    let v = values::value_of(dt, c);
    let b = values::value_bytes(v);
    assert(b.subrange(0, b.len() as int) =~= b);
    values::lemma_value_round_trip(dt, v, b, 0, Error::BucketTruncated);
}

/// Where the value of a row stands among the values of its column.
proof fn lemma_vals_index(dt: DataType, rows: Seq<CellView>, i: int)
    requires
        0 <= i < rows.len(),
        rows[i] != CellView::Null,
    ensures
        encoding::vals(dt, rows.take(i)).len() < encoding::vals(dt, rows).len(),
        encoding::vals(dt, rows)[encoding::vals(dt, rows.take(i)).len() as int]
            == values::stored(dt, rows[i]),
    decreases rows.len(),
{
    let init = rows.drop_last();
    if i == rows.len() - 1 {
        assert(rows.take(i) =~= init);
    } else {
        lemma_vals_index(dt, init, i);
        assert(init.take(i) =~= rows.take(i));
    }
}

pub proof fn lemma_vals_are_values(dt: DataType, rows: Seq<CellView>)
    requires
        encoding::acceptable(dt, rows),
    ensures
        forall|k: int|
            0 <= k < encoding::vals(dt, rows).len() ==> is_value(
                dt,
                #[trigger] encoding::vals(dt, rows)[k],
            ),
    decreases rows.len(),
{
    if rows.len() > 0 {
        let init = rows.drop_last();
        assert(encoding::acceptable(dt, init)) by {
            assert forall|i: int| 0 <= i < init.len() implies values::cell_error(
                dt,
                #[trigger] init[i],
            ) is None && values::cell_fits(init[i]) by {
                assert(init[i] == rows[i]);
            }
        }
        lemma_vals_are_values(dt, init);
        if rows.last() != CellView::Null {
            assert(rows[rows.len() - 1] == rows.last());
            lemma_stored_is_value(dt, rows.last());
        }
        let before = encoding::vals(dt, init);
        let all = encoding::vals(dt, rows);
        assert forall|k: int| 0 <= k < all.len() implies is_value(dt, #[trigger] all[k]) by {
            if k < before.len() {
                assert(all[k] == before[k]);
            }
        }
    }
}

/// One step through the values of a column.
proof fn lemma_vals_take(dt: DataType, rows: Seq<CellView>, i: int)
    requires
        0 <= i < rows.len(),
    ensures
        encoding::vals(dt, rows.take(i + 1)).len() == encoding::vals(dt, rows.take(i)).len() + (
        if rows[i] == CellView::Null {
            0int
        } else {
            1int
        }),
{
    assert(rows.take(i + 1).drop_last() =~= rows.take(i));
}

/// The null bitmap of a column counts the rows that hold no value.
proof fn lemma_ones(dt: DataType, rows: Seq<CellView>, i: nat)
    requires
        i <= rows.len(),
    ensures
        decoding::ones(bits::packed(encoding::nulls(rows)), i) + encoding::vals(
            dt,
            rows.take(i as int),
        ).len() == i,
    decreases i,
{
    if i > 0 {
        let j = (i - 1) as nat;
        lemma_ones(dt, rows, j);
        lemma_vals_take(dt, rows, j as int);
        bits::lemma_packed_bit(encoding::nulls(rows), j as int);
    }
}

/// Where there is no value for some row, the column has nulls.
proof fn lemma_all_values(dt: DataType, rows: Seq<CellView>, i: int)
    requires
        encoding::vals(dt, rows).len() >= rows.len(),
        0 <= i < rows.len(),
    ensures
        rows[i] != CellView::Null,
    decreases rows.len(),
{
    let init = rows.drop_last();
    encoding::lemma_vals_len(dt, init);
    if i < rows.len() - 1 {
        lemma_all_values(dt, init, i);
        assert(init[i] == rows[i]);
    }
}

/// A column without values is all null.
proof fn lemma_no_values(dt: DataType, rows: Seq<CellView>, i: int)
    requires
        encoding::vals(dt, rows).len() == 0,
        0 <= i < rows.len(),
    ensures
        rows[i] == CellView::Null,
    decreases rows.len(),
{
    if i < rows.len() - 1 {
        lemma_no_values(dt, rows.drop_last(), i);
        assert(rows.drop_last()[i] == rows[i]);
    }
}

/// A reader tells null rows from others.
proof fn lemma_null_rows(dt: DataType, rows: Seq<CellView>, i: int)
    requires
        0 <= i < rows.len(),
        encoding::vals(dt, rows).len() > 0,
    ensures
        (encoding::has_nulls(dt, rows) && bits::bit_at(encoding::null_part(dt, rows), i)) == (
        rows[i] == CellView::Null),
{
    if encoding::has_nulls(dt, rows) {
        bits::lemma_packed_bit(encoding::nulls(rows), i);
    } else {
        lemma_all_values(dt, rows, i);
    }
}

/// A reader counts the values of a column.
proof fn lemma_count(dt: DataType, rows: Seq<CellView>)
    requires
        encoding::vals(dt, rows).len() > 0,
    ensures
        decoding::non_null(
            encoding::has_nulls(dt, rows),
            encoding::null_part(dt, rows),
            rows.len(),
        ) == encoding::vals(dt, rows).len(),
{
    encoding::lemma_vals_len(dt, rows);
    if encoding::has_nulls(dt, rows) {
        lemma_ones(dt, rows, rows.len());
        assert(rows.take(rows.len() as int) =~= rows);
    }
}

/// Stored values of a column stand for its cells.
proof fn lemma_cells(dt: DataType, rows: Seq<CellView>, i: int, acc: Seq<CellView>)
    requires
        exact_column(dt, rows),
        0 <= i <= rows.len(),
        acc == rows.take(i),
    ensures
        decoding::cells_from(dt, stored_rows(dt, rows), i, acc) == Ok::<Seq<CellView>, Error>(
            rows,
        ),
    decreases rows.len() - i,
{
    if i < rows.len() {
        assert(acc.push(rows[i]) =~= rows.take(i + 1));
        if rows[i] != CellView::Null {
            values::lemma_cell_round_trip(dt, rows[i]);
        }
        lemma_cells(dt, rows, i + 1, acc.push(rows[i]));
    } else {
        assert(acc =~= rows);
    }
}

/// The bits of what stands at a position are the bits from there on.
proof fn lemma_bits_at(s: Seq<u8>, p: int, t: Seq<u8>, from: int, n: nat)
    requires
        bytes::has_at(s, p, t),
        0 <= from,
        from + n <= 8 * t.len(),
    ensures
        bits::bits_at(s, 8 * p + from, n) == bits::bits_at(t, from, n),
{
    reveal(bits::bit_at);
    let a = bits::bits_at(s, 8 * p + from, n);
    let b = bits::bits_at(t, from, n);
    assert forall|i: int| 0 <= i < n implies a[i] == b[i] by {
        let q = from + i;
        assert((8 * p + from + i) / 8 == p + q / 8);
        assert((8 * p + from + i) % 8 == q % 8);
        let w = s.subrange(p, p + t.len());
        assert(w[q / 8] == s[p + q / 8]);
    }
    assert(a =~= b);
}

/// The bits of packed bits are those bits.
proof fn lemma_packed_range(all: Seq<bool>, from: int, n: nat)
    requires
        0 <= from,
        from + n <= all.len(),
    ensures
        bits::bits_at(bits::packed(all), from, n) == all.subrange(from, from + n),
        from + n <= 8 * bits::packed(all).len(),
{
    let a = bits::bits_at(bits::packed(all), from, n);
    let b = all.subrange(from, from + n);
    assert forall|i: int| 0 <= i < n implies a[i] == b[i] by {
        bits::lemma_packed_bit(all, from + i);
    }
    assert(a =~= b);
}

/// The bits of one number among the bits of many.
proof fn lemma_index_bits_range(numbers: Seq<nat>, w: nat, k: int)
    requires
        0 <= k < numbers.len(),
    ensures
        0 <= k * w,
        k * w + w <= encoding::index_bits(numbers, w).len(),
        encoding::index_bits(numbers, w).subrange(k * w, k * w + w) == bits::low_bits(
            numbers[k],
            w,
        ),
    decreases numbers.len(),
{
    let init = numbers.drop_last();
    encoding::lemma_index_bits_len(numbers, w);
    encoding::lemma_index_bits_len(init, w);
    bits::lemma_low_bits_len(numbers.last(), w);
    assert(0 <= k * w) by (nonlinear_arith)
        requires
            0 <= k,
            0 <= w,
    ;
    let all = encoding::index_bits(numbers, w);
    let head = encoding::index_bits(init, w);
    assert(all == head + bits::low_bits(numbers.last(), w));
    if k == numbers.len() - 1 {
        assert(all.subrange(k * w, k * w + w) =~= bits::low_bits(numbers[k], w));
    } else {
        lemma_index_bits_range(init, w, k);
        assert(all.subrange(k * w, k * w + w) =~= head.subrange(k * w, k * w + w));
    }
}

/// A column of indices gives its stored values.
proof fn lemma_dict_values(
    dt: DataType,
    rows: Seq<CellView>,
    s: Seq<u8>,
    cursor: int,
    i: int,
    acc: Seq<Option<ValueView>>,
)
    requires
        exact_column(dt, rows),
        encoding::vals(dt, rows).len() > 0,
        0 <= i <= rows.len(),
        0 <= cursor,
        acc == stored_rows(dt, rows).take(i),
        bytes::has_at(
            s,
            cursor,
            bits::packed(
                encoding::index_bits(
                    encoding::indices(encoding::vals(dt, rows)),
                    bits::width_for(encoding::distinct(encoding::vals(dt, rows)).len()),
                ),
            ),
        ),
    ensures
        decoding::dict_values_from(
            read_values(dt, encoding::distinct(encoding::vals(dt, rows))),
            encoding::has_nulls(dt, rows),
            encoding::null_part(dt, rows),
            s,
            rows.len(),
            i,
            8 * cursor + encoding::vals(dt, rows.take(i)).len() * bits::width_for(
                encoding::distinct(encoding::vals(dt, rows)).len(),
            ),
            acc,
        ) == Ok::<Seq<Option<ValueView>>, Error>(stored_rows(dt, rows)),
    decreases rows.len() - i,
{
    let vs = encoding::vals(dt, rows);
    let d = encoding::distinct(vs);
    let w = bits::width_for(d.len());
    let numbers = encoding::indices(vs);
    let all = encoding::index_bits(numbers, w);
    let exp = stored_rows(dt, rows);
    if i < rows.len() {
        let k = encoding::vals(dt, rows.take(i)).len();
        lemma_vals_take(dt, rows, i);
        lemma_null_rows(dt, rows, i);
        assert(acc.push(exp[i]) =~= exp.take(i + 1));
        if rows[i] == CellView::Null {
            lemma_dict_values(dt, rows, s, cursor, i + 1, acc.push(exp[i]));
        } else {
            lemma_vals_index(dt, rows, i);
            assert(vs[k as int] == values::stored(dt, rows[i]));
            lemma_index_bits_range(numbers, w, k as int);
            lemma_packed_range(all, (k * w) as int, w);
            lemma_bits_at(s, cursor, bits::packed(all), (k * w) as int, w);
            encoding::lemma_distinct(vs);
            assert(d.contains(vs[k as int]));
            let place = numbers[k as int];
            assert(0 <= place < d.len() && d[place as int] == vs[k as int]);
            bits::lemma_width_for(d.len());
            bits::lemma_low_bits_round_trip(place, w);
            lemma_stored_is_value(dt, rows[i]);
            assert((k + 1) * w == k * w + w) by (nonlinear_arith);
            lemma_dict_values(dt, rows, s, cursor, i + 1, acc.push(exp[i]));
        }
    } else {
        assert(acc =~= exp);
    }
}

/// What stands behind the first values of a column is the next value.
pub proof fn lemma_flat_at(s: Seq<u8>, p: int, parts: Seq<Seq<u8>>, k: int)
    requires
        bytes::has_at(s, p, encoding::flat(parts)),
        0 <= k < parts.len(),
    ensures
        bytes::has_at(s, p + encoding::flat(parts.take(k)).len(), parts[k]),
        encoding::flat(parts.take(k + 1)).len() == encoding::flat(parts.take(k)).len()
            + parts[k].len(),
        p + encoding::flat(parts.take(k + 1)).len() <= s.len(),
{
    encoding::lemma_flat_split(parts, k);
    encoding::lemma_flat_first(parts.skip(k));
    bytes::lemma_has_at_split(
        s,
        p,
        encoding::flat(parts.take(k)),
        encoding::flat(parts.skip(k)),
    );
    bytes::lemma_has_at_split(
        s,
        p + encoding::flat(parts.take(k)).len(),
        parts[k],
        encoding::flat(parts.skip(k).drop_first()),
    );
    assert(parts.skip(k)[0] == parts[k]);
    assert(parts.take(k + 1) =~= parts.take(k).push(parts[k]));
    encoding::lemma_flat_push(parts.take(k), parts[k]);
}

/// A plain column gives its stored values.
proof fn lemma_plain_values(
    dt: DataType,
    rows: Seq<CellView>,
    s: Seq<u8>,
    cursor: int,
    i: int,
    acc: Seq<Option<ValueView>>,
)
    requires
        exact_column(dt, rows),
        encoding::vals(dt, rows).len() > 0,
        0 <= i <= rows.len(),
        acc == stored_rows(dt, rows).take(i),
        bytes::has_at(s, cursor, encoding::flat(encoding::vals(dt, rows))),
    ensures
        decoding::plain_values_from(
            dt,
            encoding::has_nulls(dt, rows),
            encoding::null_part(dt, rows),
            s,
            rows.len(),
            i,
            cursor + encoding::flat(
                encoding::vals(dt, rows).take(encoding::vals(dt, rows.take(i)).len() as int),
            ).len(),
            acc,
        ) == Ok::<Seq<Option<ValueView>>, Error>(stored_rows(dt, rows)),
    decreases rows.len() - i,
{
    let vs = encoding::vals(dt, rows);
    let exp = stored_rows(dt, rows);
    if i < rows.len() {
        let k = encoding::vals(dt, rows.take(i)).len();
        lemma_vals_take(dt, rows, i);
        lemma_null_rows(dt, rows, i);
        assert(acc.push(exp[i]) =~= exp.take(i + 1));
        if rows[i] != CellView::Null {
            lemma_vals_index(dt, rows, i);
            lemma_flat_at(s, cursor, vs, k as int);
            lemma_stored_is_value(dt, rows[i]);
            lemma_value_found(
                dt,
                vs[k as int],
                s,
                cursor + encoding::flat(vs.take(k as int)).len(),
                Error::BucketTruncated,
            );
        }
        lemma_plain_values(dt, rows, s, cursor, i + 1, acc.push(exp[i]));
    } else {
        assert(acc =~= exp);
    }
}

/// A column whose parts a reader found reads as the cells that were written.
proof fn lemma_column(dt: DataType, rows: Seq<CellView>, limits: Limits, s: Seq<u8>, cursor: int)
    requires
        exact_column(dt, rows),
        bytes::has_at(s, cursor, encoding::data_part(dt, rows, limits)),
    ensures
        decoding::column_cells(
            dt,
            encoding::kind(dt, rows, limits),
            encoding::has_nulls(dt, rows),
            encoding::null_part(dt, rows),
            found_const(dt, rows, limits),
            found_dict(dt, rows, limits),
            s,
            cursor,
            rows.len(),
        ) == Ok::<Seq<CellView>, Error>(rows),
{
    let vs = encoding::vals(dt, rows);
    let k = encoding::kind(dt, rows, limits);
    let exp = stored_rows(dt, rows);
    assert(rows.take(0) =~= Seq::<CellView>::empty());
    assert(exp.take(0) =~= Seq::<Option<ValueView>>::empty());
    if k == ENCODING_ALL_NULL {
        assert forall|i: int| 0 <= i < rows.len() implies rows[i] == CellView::Null by {
            lemma_no_values(dt, rows, i);
        }
        assert(rows =~= decoding::null_column(rows.len()));
    } else if k == ENCODING_CONST {
        let found = decoding::const_values(
            found_const(dt, rows, limits),
            encoding::has_nulls(dt, rows),
            encoding::null_part(dt, rows),
            rows.len(),
        );
        assert forall|i: int| 0 <= i < rows.len() implies found[i] == exp[i] by {
            lemma_null_rows(dt, rows, i);
            if rows[i] != CellView::Null {
                lemma_vals_index(dt, rows, i);
                lemma_stored_is_value(dt, rows[i]);
            }
        }
        assert(found =~= exp);
        lemma_cells(dt, rows, 0, Seq::empty());
    } else if k == ENCODING_DICT {
        assert(0 * bits::width_for(encoding::distinct(vs).len()) == 0) by (nonlinear_arith);
        lemma_dict_values(dt, rows, s, cursor, 0, Seq::empty());
        lemma_cells(dt, rows, 0, Seq::empty());
    } else {
        assert(vs.take(0) =~= Seq::<Seq<u8>>::empty());
        lemma_plain_values(dt, rows, s, cursor, 0, Seq::empty());
        lemma_cells(dt, rows, 0, Seq::empty());
    }
}

/// A table of values is read entry by entry.
proof fn lemma_entries(
    dt: DataType,
    d: Seq<Seq<u8>>,
    s: Seq<u8>,
    p: int,
    k: int,
    acc: Seq<ValueView>,
    short: Error,
)
    requires
        forall|j: int| 0 <= j < d.len() ==> is_value(dt, #[trigger] d[j]),
        bytes::has_at(s, p, encoding::flat(d)),
        0 <= k <= d.len(),
        acc == read_values(dt, d).take(k),
    ensures
        decoding::entries_from(
            dt,
            s,
            (d.len() - k) as nat,
            p + encoding::flat(d.take(k)).len(),
            acc,
            short,
        ) == Ok::<(Seq<ValueView>, int), Error>(
            (read_values(dt, d), p + encoding::flat(d).len()),
        ),
    decreases d.len() - k,
{
    if k < d.len() {
        lemma_flat_at(s, p, d, k);
        lemma_value_found(dt, d[k], s, p + encoding::flat(d.take(k)).len(), short);
        let v = read_value(dt, d[k]);
        assert(acc.push(v) =~= read_values(dt, d).take(k + 1));
        lemma_entries(dt, d, s, p, k + 1, acc.push(v), short);
    } else {
        assert(acc =~= read_values(dt, d));
        assert(d.take(k) =~= d);
    }
}

/// The table of a column is found where it stands.
proof fn lemma_dict_found(
    dt: DataType,
    rows: Seq<CellView>,
    limits: Limits,
    s: Seq<u8>,
    p: int,
    short: Error,
)
    requires
        encoding::acceptable(dt, rows),
        limits.entries <= u32::MAX,
        encoding::kind(dt, rows, limits) == ENCODING_DICT,
        bytes::has_at(s, p, encoding::dict_part(dt, rows, limits)),
    ensures
        decoding::dict_at(dt, s, p, short) == Ok::<(Seq<ValueView>, int), Error>(
            (found_dict(dt, rows, limits), p + encoding::dict_part(dt, rows, limits).len()),
        ),
{
    let vs = encoding::vals(dt, rows);
    let d = encoding::distinct(vs);
    let head = varint::leb(d.len());
    bytes::lemma_has_at_split(s, p, head, encoding::flat(d));
    varint::lemma_u32_round_trip(s, p, d.len() as u32);
    lemma_vals_are_values(dt, rows);
    encoding::lemma_distinct(vs);
    assert forall|j: int| 0 <= j < d.len() implies is_value(dt, #[trigger] d[j]) by {
        assert(vs.contains(d[j]));
        let i = choose|i: int| 0 <= i < vs.len() && vs[i] == d[j];
        assert(is_value(dt, vs[i]));
    }
    assert(read_values(dt, d).take(0) =~= Seq::<ValueView>::empty());
    assert(d.take(0) =~= Seq::<Seq<u8>>::empty());
    lemma_entries(dt, d, s, p + head.len(), 0, Seq::empty(), short);
}

/// Skipping the values of a column ends behind them.
proof fn lemma_skip_variable(
    dt: DataType,
    vs: Seq<Seq<u8>>,
    s: Seq<u8>,
    p: int,
    k: int,
    short: Error,
)
    requires
        types::width(dt) <= 0,
        forall|j: int| 0 <= j < vs.len() ==> is_value(dt, #[trigger] vs[j]),
        bytes::has_at(s, p, encoding::flat(vs)),
        0 <= k <= vs.len(),
    ensures
        decoding::skip_variable(
            s,
            (vs.len() - k) as nat,
            p + encoding::flat(vs.take(k)).len(),
            short,
        ) == Ok::<int, Error>(p + encoding::flat(vs).len()),
    decreases vs.len() - k,
{
    if k < vs.len() {
        let q = p + encoding::flat(vs.take(k)).len();
        lemma_flat_at(s, p, vs, k);
        assert(is_value(dt, vs[k]));
        let v = choose|v: ValueView|
            values::value_matches(dt, v) && values::value_fits(v) && vs[k] == #[trigger]
                values::value_bytes(v);
        values::lemma_value_bytes_len(dt, v);
        let b = values::bytes_of(v);
        bytes::lemma_has_at_split(s, q, varint::leb(b.len()), b);
        varint::lemma_u32_round_trip(s, q, b.len() as u32);
        lemma_skip_variable(dt, vs, s, p, k + 1, short);
    } else {
        assert(vs.take(k) =~= vs);
    }
}

pub proof fn lemma_flat_fixed(vs: Seq<Seq<u8>>, w: int)
    requires
        forall|j: int| 0 <= j < vs.len() ==> (#[trigger] vs[j]).len() == w,
    ensures
        encoding::flat(vs).len() == vs.len() * w,
    decreases vs.len(),
{
    if vs.len() > 0 {
        let init = vs.drop_last();
        assert forall|j: int| 0 <= j < init.len() implies (#[trigger] init[j]).len() == w by {
            assert(init[j] == vs[j]);
        }
        lemma_flat_fixed(init, w);
        assert(vs.last() == vs[vs.len() - 1]);
        assert(vs.len() * w == init.len() * w + w) by (nonlinear_arith)
            requires
                vs.len() == init.len() + 1,
        ;
    } else {
        assert(0 * w == 0) by (nonlinear_arith);
    }
}

/// Skipping the plain values of a column ends behind them.
proof fn lemma_skip_plain(
    dt: DataType,
    rows: Seq<CellView>,
    s: Seq<u8>,
    p: int,
    short_fixed: Error,
    short_variable: Error,
)
    requires
        encoding::acceptable(dt, rows),
        bytes::has_at(s, p, encoding::flat(encoding::vals(dt, rows))),
    ensures
        decoding::skip_plain(
            dt,
            s,
            encoding::vals(dt, rows).len() as int,
            p,
            short_fixed,
            short_variable,
        ) == Ok::<int, Error>(p + encoding::flat(encoding::vals(dt, rows)).len()),
{
    let vs = encoding::vals(dt, rows);
    lemma_vals_are_values(dt, rows);
    if types::width(dt) > 0 {
        assert forall|j: int| 0 <= j < vs.len() implies (#[trigger] vs[j]).len()
            == types::width(dt) by {
            assert(is_value(dt, vs[j]));
            assert(vs[j].subrange(0, vs[j].len() as int) =~= vs[j]);
            lemma_value_found(dt, vs[j], vs[j], 0, short_fixed);
        }
        lemma_flat_fixed(vs, types::width(dt));
    } else {
        assert(vs.take(0) =~= Seq::<Seq<u8>>::empty());
        lemma_skip_variable(dt, vs, s, p, 0, short_variable);
    }
}

/// Skipping the data of a column ends behind it.
proof fn lemma_skip_column(
    dt: DataType,
    rows: Seq<CellView>,
    limits: Limits,
    s: Seq<u8>,
    p: int,
    count: int,
)
    requires
        encoding::acceptable(dt, rows),
        bytes::has_at(s, p, encoding::data_part(dt, rows, limits)),
        encoding::vals(dt, rows).len() > 0 ==> count == encoding::vals(dt, rows).len(),
    ensures
        decoding::skip_column(
            dt,
            encoding::kind(dt, rows, limits),
            s,
            count,
            found_dict(dt, rows, limits).len(),
            p,
        ) == Ok::<int, Error>(p + encoding::data_part(dt, rows, limits).len()),
{
    let vs = encoding::vals(dt, rows);
    let k = encoding::kind(dt, rows, limits);
    if k == ENCODING_PLAIN {
        lemma_skip_plain(dt, rows, s, p, Error::BucketTruncated, Error::BucketTruncated);
    } else if k == ENCODING_DICT {
        let w = bits::width_for(encoding::distinct(vs).len());
        encoding::lemma_index_bits_len(encoding::indices(vs), w);
    }
}

/// What a reader finds of the columns of a bucket.
pub open spec fn found_consts(dts: Seq<DataType>, rows: Seq<Seq<CellView>>, limits: Limits) -> Seq<
    ValueView,
> {
    Seq::new(dts.len(), |i: int| found_const(dts[i], rows[i], limits))
}

pub open spec fn found_dicts(dts: Seq<DataType>, rows: Seq<Seq<CellView>>, limits: Limits) -> Seq<
    Seq<ValueView>,
> {
    Seq::new(dts.len(), |i: int| found_dict(dts[i], rows[i], limits))
}

/// Columns of equally many rows, all of them exact.
pub open spec fn exact_columns(
    dts: Seq<DataType>,
    rows: Seq<Seq<CellView>>,
    num_rows: nat,
) -> bool {
    &&& dts.len() == rows.len()
    &&& forall|i: int|
        0 <= i < rows.len() ==> (#[trigger] rows[i]).len() == num_rows && exact_column(
            dts[i],
            rows[i],
        )
}

proof fn lemma_consts(
    dts: Seq<DataType>,
    rows: Seq<Seq<CellView>>,
    num_rows: nat,
    limits: Limits,
    s: Seq<u8>,
    base: int,
    i: int,
    acc: Seq<ValueView>,
)
    requires
        exact_columns(dts, rows, num_rows),
        bytes::has_at(s, base, encoding::flat(encoding::const_parts(dts, rows, limits))),
        0 <= i <= dts.len(),
        acc == found_consts(dts, rows, limits).take(i),
    ensures
        decoding::consts_from(
            dts,
            encoding::kinds(dts, rows, limits),
            s,
            i,
            base + encoding::flat(encoding::const_parts(dts, rows, limits).take(i)).len(),
            acc,
        ) == Ok::<(Seq<ValueView>, int), Error>(
            (
                found_consts(dts, rows, limits),
                base + encoding::flat(encoding::const_parts(dts, rows, limits)).len(),
            ),
        ),
    decreases dts.len() - i,
{
    let parts = encoding::const_parts(dts, rows, limits);
    let found = found_consts(dts, rows, limits);
    if i < dts.len() {
        lemma_flat_at(s, base, parts, i);
        assert(acc.push(found[i]) =~= found.take(i + 1));
        let dt = dts[i];
        if encoding::kind(dt, rows[i], limits) == ENCODING_CONST {
            assert(exact_column(dt, rows[i]));
            lemma_vals_are_values(dt, rows[i]);
            lemma_value_found(
                dt,
                parts[i],
                s,
                base + encoding::flat(parts.take(i)).len(),
                Error::BucketTruncated,
            );
        }
        lemma_consts(dts, rows, num_rows, limits, s, base, i + 1, acc.push(found[i]));
    } else {
        assert(acc =~= found);
        assert(parts.take(i) =~= parts);
    }
}

proof fn lemma_dicts(
    dts: Seq<DataType>,
    rows: Seq<Seq<CellView>>,
    num_rows: nat,
    limits: Limits,
    s: Seq<u8>,
    base: int,
    i: int,
    acc: Seq<Seq<ValueView>>,
)
    requires
        exact_columns(dts, rows, num_rows),
        limits.entries <= u32::MAX,
        bytes::has_at(s, base, encoding::flat(encoding::dict_parts(dts, rows, limits))),
        0 <= i <= dts.len(),
        acc == found_dicts(dts, rows, limits).take(i),
    ensures
        decoding::dicts_from(
            dts,
            encoding::kinds(dts, rows, limits),
            s,
            i,
            base + encoding::flat(encoding::dict_parts(dts, rows, limits).take(i)).len(),
            acc,
        ) == Ok::<(Seq<Seq<ValueView>>, int), Error>(
            (
                found_dicts(dts, rows, limits),
                base + encoding::flat(encoding::dict_parts(dts, rows, limits)).len(),
            ),
        ),
    decreases dts.len() - i,
{
    let parts = encoding::dict_parts(dts, rows, limits);
    let found = found_dicts(dts, rows, limits);
    if i < dts.len() {
        lemma_flat_at(s, base, parts, i);
        assert(acc.push(found[i]) =~= found.take(i + 1));
        let dt = dts[i];
        if encoding::kind(dt, rows[i], limits) == ENCODING_DICT {
            assert(exact_column(dt, rows[i]));
            lemma_dict_found(
                dt,
                rows[i],
                limits,
                s,
                base + encoding::flat(parts.take(i)).len(),
                Error::BucketTruncated,
            );
        }
        lemma_dicts(dts, rows, num_rows, limits, s, base, i + 1, acc.push(found[i]));
    } else {
        assert(acc =~= found);
        assert(parts.take(i) =~= parts);
    }
}

proof fn lemma_bitmaps(
    dts: Seq<DataType>,
    rows: Seq<Seq<CellView>>,
    num_rows: nat,
    limits: Limits,
    s: Seq<u8>,
    base: int,
    i: int,
    acc: Seq<Seq<u8>>,
)
    requires
        exact_columns(dts, rows, num_rows),
        bytes::has_at(s, base, encoding::flat(encoding::null_parts(dts, rows))),
        0 <= i <= dts.len(),
        acc == encoding::null_parts(dts, rows).take(i),
    ensures
        decoding::bitmaps_from(
            encoding::kinds(dts, rows, limits),
            encoding::null_flags(dts, rows),
            s,
            num_rows,
            i,
            base + encoding::flat(encoding::null_parts(dts, rows).take(i)).len(),
            acc,
        ) == Ok::<(Seq<Seq<u8>>, int), Error>(
            (
                encoding::null_parts(dts, rows),
                base + encoding::flat(encoding::null_parts(dts, rows)).len(),
            ),
        ),
    decreases dts.len() - i,
{
    let parts = encoding::null_parts(dts, rows);
    if i < dts.len() {
        lemma_flat_at(s, base, parts, i);
        assert(acc.push(parts[i]) =~= parts.take(i + 1));
        assert(rows[i].len() == num_rows);
        lemma_bitmaps(dts, rows, num_rows, limits, s, base, i + 1, acc.push(parts[i]));
    } else {
        assert(acc =~= parts);
        assert(parts.take(i) =~= parts);
    }
}

/// Where the data of each column starts.
pub open spec fn found_cursors(
    dts: Seq<DataType>,
    rows: Seq<Seq<CellView>>,
    limits: Limits,
    base: int,
) -> Seq<int> {
    Seq::new(
        dts.len(),
        |i: int| base + encoding::flat(encoding::data_parts(dts, rows, limits).take(i)).len(),
    )
}

proof fn lemma_cursors(
    dts: Seq<DataType>,
    rows: Seq<Seq<CellView>>,
    num_rows: nat,
    limits: Limits,
    s: Seq<u8>,
    base: int,
    i: int,
    acc: Seq<int>,
)
    requires
        exact_columns(dts, rows, num_rows),
        bytes::has_at(s, base, encoding::flat(encoding::data_parts(dts, rows, limits))),
        0 <= i <= dts.len(),
        acc == found_cursors(dts, rows, limits, base).take(i),
    ensures
        decoding::cursors_from(
            dts,
            encoding::kinds(dts, rows, limits),
            encoding::null_flags(dts, rows),
            found_dicts(dts, rows, limits),
            encoding::null_parts(dts, rows),
            s,
            num_rows,
            i,
            base + encoding::flat(encoding::data_parts(dts, rows, limits).take(i)).len(),
            acc,
        ) == Ok::<Seq<int>, Error>(found_cursors(dts, rows, limits, base)),
    decreases dts.len() - i,
{
    let parts = encoding::data_parts(dts, rows, limits);
    let found = found_cursors(dts, rows, limits, base);
    if i < dts.len() {
        lemma_flat_at(s, base, parts, i);
        assert(acc.push(found[i]) =~= found.take(i + 1));
        let dt = dts[i];
        let p = base + encoding::flat(parts.take(i)).len();
        assert(rows[i].len() == num_rows && exact_column(dt, rows[i]));
        let k = encoding::kind(dt, rows[i], limits);
        let flag = encoding::has_nulls(dt, rows[i]);
        let count = if flag && k == ENCODING_ALL_NULL {
            0
        } else {
            decoding::non_null(flag, encoding::null_part(dt, rows[i]), num_rows)
        };
        if encoding::vals(dt, rows[i]).len() > 0 {
            lemma_count(dt, rows[i]);
        }
        lemma_skip_column(dt, rows[i], limits, s, p, count);
        assert(encoding::null_flags(dts, rows)[i] == flag);
        assert(encoding::kinds(dts, rows, limits)[i] == k);
        assert(encoding::null_parts(dts, rows)[i] == encoding::null_part(dt, rows[i]));
        assert(found_dicts(dts, rows, limits)[i] == found_dict(dt, rows[i], limits));
        assert(parts[i] == encoding::data_part(dt, rows[i], limits));
        lemma_cursors(dts, rows, num_rows, limits, s, base, i + 1, acc.push(found[i]));
    } else {
        assert(acc =~= found);
    }
}

/// Two header bitmaps are found as they were written.
proof fn lemma_header_bits(kinds: Seq<u8>, flags: Seq<bool>, s: Seq<u8>)
    requires
        kinds.len() == flags.len(),
        forall|i: int| 0 <= i < kinds.len() ==> #[trigger] kinds[i] <= 3,
        bytes::has_at(s, 0, bits::packed(encoding::kind_bits(kinds)) + bits::packed(flags)),
    ensures
        bits::packed(encoding::kind_bits(kinds)).len() == decoding::kinds_size(kinds.len()),
        bits::packed(flags).len() == bits::byte_count(kinds.len() as int),
        decoding::kinds_at(s, kinds.len()) == kinds,
        bits::bits_at(s, 8 * decoding::kinds_size(kinds.len()), kinds.len()) == flags,
{
    let n = kinds.len();
    let kb = encoding::kind_bits(kinds);
    let a = bits::packed(kb);
    let b = bits::packed(flags);
    bytes::lemma_has_at_split(s, 0, a, b);
    bits::lemma_packed_bits(kb);
    bits::lemma_packed_bits(flags);
    lemma_bits_at(s, 0, a, 0, 2 * n);
    lemma_bits_at(s, a.len() as int, b, 0, n);
    let found = bits::bits_at(s, 0, 2 * n);
    assert forall|i: int| 0 <= i < n implies decoding::kinds_at(s, n)[i] == kinds[i] by {
        assert(found[2 * i] == kb[2 * i]);
        assert(found[2 * i + 1] == kb[2 * i + 1]);
        assert((2 * i) / 2 == i && (2 * i + 1) / 2 == i);
        assert(kinds[i] <= 3);
    }
    assert(decoding::kinds_at(s, n) =~= kinds);
}

/// The header of a bucket is found as it was written.
proof fn lemma_header(dts: Seq<DataType>, rows: Seq<Seq<CellView>>, limits: Limits, s: Seq<u8>)
    requires
        dts.len() == rows.len(),
        bytes::has_at(s, 0, encoding::header(dts, rows, limits)),
    ensures
        encoding::header(dts, rows, limits).len() == decoding::header_size(dts.len()),
        decoding::kinds_at(s, dts.len()) == encoding::kinds(dts, rows, limits),
        bits::bits_at(s, 8 * decoding::kinds_size(dts.len()), dts.len()) == encoding::null_flags(
            dts,
            rows,
        ),
{
    let kinds = encoding::kinds(dts, rows, limits);
    assert forall|i: int| 0 <= i < kinds.len() implies #[trigger] kinds[i] <= 3 by {
        assert(kinds[i] == encoding::kind(dts[i], rows[i], limits));
    }
    lemma_header_bits(kinds, encoding::null_flags(dts, rows), s);
}

proof fn lemma_columns(
    dts: Seq<DataType>,
    rows: Seq<Seq<CellView>>,
    num_rows: nat,
    limits: Limits,
    s: Seq<u8>,
    base: int,
    info: BucketInfo,
    i: int,
    acc: Seq<Seq<CellView>>,
)
    requires
        exact_columns(dts, rows, num_rows),
        bytes::has_at(s, base, encoding::flat(encoding::data_parts(dts, rows, limits))),
        info == (BucketInfo {
            kinds: encoding::kinds(dts, rows, limits),
            flags: encoding::null_flags(dts, rows),
            consts: found_consts(dts, rows, limits),
            dicts: found_dicts(dts, rows, limits),
            bitmaps: encoding::null_parts(dts, rows),
            cursors: found_cursors(dts, rows, limits, base),
        }),
        0 <= i <= dts.len(),
        acc == rows.take(i),
    ensures
        decoding::columns_from(dts, info, s, num_rows, i, acc) == Ok::<
            Seq<Seq<CellView>>,
            Error,
        >(rows),
    decreases dts.len() - i,
{
    if i < dts.len() {
        lemma_flat_at(s, base, encoding::data_parts(dts, rows, limits), i);
        assert(rows[i].len() == num_rows && exact_column(dts[i], rows[i]));
        lemma_column(dts[i], rows[i], limits, s, info.cursors[i]);
        assert(acc.push(rows[i]) =~= rows.take(i + 1));
        lemma_columns(dts, rows, num_rows, limits, s, base, info, i + 1, acc.push(rows[i]));
    } else {
        assert(acc =~= rows);
    }
}

/// Opening the bytes of a bucket succeeds, and its columns read as the cells that
/// were written to them.
pub proof fn lemma_bucket_round_trip(
    dts: Seq<DataType>,
    rows: Seq<Seq<CellView>>,
    num_rows: nat,
    limits: Limits,
)
    requires
        exact_columns(dts, rows, num_rows),
        limits.entries <= u32::MAX,
    ensures
        decoding::parse_bucket(
            dts,
            encoding::bucket_bytes(dts, rows, limits),
            num_rows,
        ) is Ok,
        decoding::bucket_columns(
            dts,
            decoding::parse_bucket(
                dts,
                encoding::bucket_bytes(dts, rows, limits),
                num_rows,
            )->Ok_0,
            encoding::bucket_bytes(dts, rows, limits),
            num_rows,
        ) == Ok::<Seq<Seq<CellView>>, Error>(rows),
{
    let s = encoding::bucket_bytes(dts, rows, limits);
    let head = encoding::header(dts, rows, limits);
    let consts = encoding::const_parts(dts, rows, limits);
    let dicts = encoding::dict_parts(dts, rows, limits);
    let nulls = encoding::null_parts(dts, rows);
    let datas = encoding::data_parts(dts, rows, limits);
    lemma_five_parts(
        head,
        encoding::flat(consts),
        encoding::flat(dicts),
        encoding::flat(nulls),
        encoding::flat(datas),
    );
    let p0 = head.len() as int;
    let p1 = p0 + encoding::flat(consts).len();
    let p2 = p1 + encoding::flat(dicts).len();
    let p3 = p2 + encoding::flat(nulls).len();
    lemma_header(dts, rows, limits, s);
    lemma_sections(dts, rows, num_rows, limits, s, p0, p1, p2, p3);
    let info = BucketInfo {
        kinds: encoding::kinds(dts, rows, limits),
        flags: encoding::null_flags(dts, rows),
        consts: found_consts(dts, rows, limits),
        dicts: found_dicts(dts, rows, limits),
        bitmaps: encoding::null_parts(dts, rows),
        cursors: found_cursors(dts, rows, limits, p3),
    };
    lemma_parse_assembled(dts, s, num_rows, info, p1, p2, p3);
    assert(rows.take(0) =~= Seq::<Seq<CellView>>::empty());
    lemma_columns(dts, rows, num_rows, limits, s, p3, info, 0, Seq::empty());
}

/// Five parts stand one behind the other.
proof fn lemma_five_parts(a: Seq<u8>, b: Seq<u8>, c: Seq<u8>, d: Seq<u8>, e: Seq<u8>)
    ensures
        bytes::has_at(a + b + c + d + e, 0, a),
        bytes::has_at(a + b + c + d + e, a.len() as int, b),
        bytes::has_at(a + b + c + d + e, (a.len() + b.len()) as int, c),
        bytes::has_at(a + b + c + d + e, (a.len() + b.len() + c.len()) as int, d),
        bytes::has_at(a + b + c + d + e, (a.len() + b.len() + c.len() + d.len()) as int, e),
{
    let s = a + b + c + d + e;
    assert(s.subrange(0, s.len() as int) =~= s);
    bytes::lemma_has_at_split(s, 0, a + b + c + d, e);
    bytes::lemma_has_at_split(s, 0, a + b + c, d);
    bytes::lemma_has_at_split(s, 0, a + b, c);
    bytes::lemma_has_at_split(s, 0, a, b);
}

/// The sections behind the header are found as they were written.
proof fn lemma_sections(
    dts: Seq<DataType>,
    rows: Seq<Seq<CellView>>,
    num_rows: nat,
    limits: Limits,
    s: Seq<u8>,
    p0: int,
    p1: int,
    p2: int,
    p3: int,
)
    requires
        exact_columns(dts, rows, num_rows),
        limits.entries <= u32::MAX,
        bytes::has_at(s, p0, encoding::flat(encoding::const_parts(dts, rows, limits))),
        bytes::has_at(s, p1, encoding::flat(encoding::dict_parts(dts, rows, limits))),
        bytes::has_at(s, p2, encoding::flat(encoding::null_parts(dts, rows))),
        bytes::has_at(s, p3, encoding::flat(encoding::data_parts(dts, rows, limits))),
        p1 == p0 + encoding::flat(encoding::const_parts(dts, rows, limits)).len(),
        p2 == p1 + encoding::flat(encoding::dict_parts(dts, rows, limits)).len(),
        p3 == p2 + encoding::flat(encoding::null_parts(dts, rows)).len(),
    ensures
        decoding::consts_from(
            dts,
            encoding::kinds(dts, rows, limits),
            s,
            0,
            p0,
            Seq::empty(),
        ) == Ok::<(Seq<ValueView>, int), Error>((found_consts(dts, rows, limits), p1)),
        decoding::dicts_from(
            dts,
            encoding::kinds(dts, rows, limits),
            s,
            0,
            p1,
            Seq::empty(),
        ) == Ok::<(Seq<Seq<ValueView>>, int), Error>((found_dicts(dts, rows, limits), p2)),
        decoding::bitmaps_from(
            encoding::kinds(dts, rows, limits),
            encoding::null_flags(dts, rows),
            s,
            num_rows,
            0,
            p2,
            Seq::empty(),
        ) == Ok::<(Seq<Seq<u8>>, int), Error>((encoding::null_parts(dts, rows), p3)),
        decoding::cursors_from(
            dts,
            encoding::kinds(dts, rows, limits),
            encoding::null_flags(dts, rows),
            found_dicts(dts, rows, limits),
            encoding::null_parts(dts, rows),
            s,
            num_rows,
            0,
            p3,
            Seq::empty(),
        ) == Ok::<Seq<int>, Error>(found_cursors(dts, rows, limits, p3)),
{
    assert(encoding::const_parts(dts, rows, limits).take(0) =~= Seq::<Seq<u8>>::empty());
    assert(encoding::dict_parts(dts, rows, limits).take(0) =~= Seq::<Seq<u8>>::empty());
    assert(encoding::null_parts(dts, rows).take(0) =~= Seq::<Seq<u8>>::empty());
    assert(encoding::data_parts(dts, rows, limits).take(0) =~= Seq::<Seq<u8>>::empty());
    assert(found_consts(dts, rows, limits).take(0) =~= Seq::<ValueView>::empty());
    assert(found_dicts(dts, rows, limits).take(0) =~= Seq::<Seq<ValueView>>::empty());
    assert(found_cursors(dts, rows, limits, p3).take(0) =~= Seq::<int>::empty());
    lemma_consts(dts, rows, num_rows, limits, s, p0, 0, Seq::empty());
    lemma_dicts(dts, rows, num_rows, limits, s, p1, 0, Seq::empty());
    lemma_bitmaps(dts, rows, num_rows, limits, s, p2, 0, Seq::empty());
    lemma_cursors(dts, rows, num_rows, limits, s, p3, 0, Seq::empty());
}

/// A bucket whose sections are all found can be opened.
proof fn lemma_parse_assembled(
    dts: Seq<DataType>,
    s: Seq<u8>,
    num_rows: nat,
    info: BucketInfo,
    p1: int,
    p2: int,
    p3: int,
)
    requires
        decoding::header_size(dts.len()) <= s.len(),
        decoding::kinds_at(s, dts.len()) == info.kinds,
        bits::bits_at(s, 8 * decoding::kinds_size(dts.len()), dts.len()) == info.flags,
        decoding::consts_from(
            dts,
            info.kinds,
            s,
            0,
            decoding::header_size(dts.len()),
            Seq::empty(),
        ) == Ok::<(Seq<ValueView>, int), Error>((info.consts, p1)),
        decoding::dicts_from(dts, info.kinds, s, 0, p1, Seq::empty()) == Ok::<
            (Seq<Seq<ValueView>>, int),
            Error,
        >((info.dicts, p2)),
        decoding::bitmaps_from(info.kinds, info.flags, s, num_rows, 0, p2, Seq::empty()) == Ok::<
            (Seq<Seq<u8>>, int),
            Error,
        >((info.bitmaps, p3)),
        decoding::cursors_from(
            dts,
            info.kinds,
            info.flags,
            info.dicts,
            info.bitmaps,
            s,
            num_rows,
            0,
            p3,
            Seq::empty(),
        ) == Ok::<Seq<int>, Error>(info.cursors),
    ensures
        decoding::parse_bucket(dts, s, num_rows) == Ok::<BucketInfo, Error>(info),
{
}

/// Opening a column page succeeds, and the column reads as the cells that were
/// written to it.
pub proof fn lemma_page_round_trip(
    dt: DataType,
    rows: Seq<CellView>,
    limits: Limits,
    s: Seq<u8>,
    start: int,
)
    requires
        exact_column(dt, rows),
        limits.entries <= u32::MAX,
        bytes::has_at(
            s,
            start,
            encoding::dict_part(dt, rows, limits) + encoding::null_part(dt, rows)
                + encoding::data_part(dt, rows, limits),
        ),
    ensures
        decoding::parse_page(
            dt,
            encoding::kind(dt, rows, limits),
            encoding::has_nulls(dt, rows),
            s,
            start,
            rows.len(),
        ) is Ok,
        decoding::page_cells(
            dt,
            encoding::kind(dt, rows, limits),
            encoding::has_nulls(dt, rows),
            found_const(dt, rows, limits),
            decoding::parse_page(
                dt,
                encoding::kind(dt, rows, limits),
                encoding::has_nulls(dt, rows),
                s,
                start,
                rows.len(),
            )->Ok_0,
            s,
            rows.len(),
        ) == Ok::<Seq<CellView>, Error>(rows),
{
    let k = encoding::kind(dt, rows, limits);
    let flag = encoding::has_nulls(dt, rows);
    let a = encoding::dict_part(dt, rows, limits);
    let b = encoding::null_part(dt, rows);
    let c = encoding::data_part(dt, rows, limits);
    bytes::lemma_has_at_split(s, start, a + b, c);
    bytes::lemma_has_at_split(s, start, a, b);
    let p1 = start + a.len();
    let p2 = p1 + b.len();
    if encoding::vals(dt, rows).len() > 0 {
        lemma_count(dt, rows);
    }
    if k == ENCODING_CONST {
        lemma_column(dt, rows, limits, s, p2);
    } else if k == ENCODING_DICT {
        lemma_dict_found(dt, rows, limits, s, start, Error::PageTruncated);
        lemma_skip_column(
            dt,
            rows,
            limits,
            s,
            p2,
            encoding::vals(dt, rows).len() as int,
        );
        lemma_column(dt, rows, limits, s, p2);
    } else if k == ENCODING_PLAIN {
        lemma_skip_plain(dt, rows, s, p2, Error::PagePlainFixed, Error::PagePlainVariable);
        lemma_column(dt, rows, limits, s, p2);
    } else {
        lemma_column(dt, rows, limits, s, p2);
    }
}

} // verus!
