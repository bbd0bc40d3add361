//! What a bucket holds: the bytes of its columns as a function of their cells.

use crate::bits;
use crate::format::{ENCODING_ALL_NULL, ENCODING_CONST, ENCODING_DICT, ENCODING_PLAIN};
use crate::types;
use crate::types::DataType;
use crate::values;
use crate::values::CellView;
use crate::varint;
use vstd::prelude::*;

verus! {

/// All parts, one behind the other.
pub open spec fn flat(parts: Seq<Seq<u8>>) -> Seq<u8>
    decreases parts.len(),
{
    if parts.len() == 0 {
        Seq::empty()
    } else {
        flat(parts.drop_last()) + parts.last()
    }
}

/// Which rows of a column are null.
pub open spec fn nulls(rows: Seq<CellView>) -> Seq<bool> {
    Seq::new(rows.len(), |i: int| rows[i] == CellView::Null)
}

/// The stored values of a column: the bytes of each cell that is not null.
pub open spec fn vals(dt: DataType, rows: Seq<CellView>) -> Seq<Seq<u8>>
    decreases rows.len(),
{
    if rows.len() == 0 {
        Seq::empty()
    } else if rows.last() == CellView::Null {
        vals(dt, rows.drop_last())
    } else {
        vals(dt, rows.drop_last()).push(values::stored(dt, rows.last()))
    }
}

/// The distinct values, in the order in which they first occur.
pub open spec fn distinct(vs: Seq<Seq<u8>>) -> Seq<Seq<u8>>
    decreases vs.len(),
{
    if vs.len() == 0 {
        Seq::empty()
    } else {
        let d = distinct(vs.drop_last());
        if d.contains(vs.last()) {
            d
        } else {
            d.push(vs.last())
        }
    }
}

/// Whether all values are the same.
pub open spec fn all_same(vs: Seq<Seq<u8>>) -> bool {
    forall|i: int| 0 <= i < vs.len() ==> #[trigger] vs[i] == vs[0]
}

/// Each value as its place among the distinct values.
pub open spec fn indices(vs: Seq<Seq<u8>>) -> Seq<nat> {
    Seq::new(vs.len(), |i: int| distinct(vs).index_of(vs[i]) as nat)
}

/// The `w` low bits of each number, one number behind the other.
pub open spec fn index_bits(numbers: Seq<nat>, w: nat) -> Seq<bool>
    decreases numbers.len(),
{
    if numbers.len() == 0 {
        Seq::empty()
    } else {
        index_bits(numbers.drop_last(), w) + bits::low_bits(numbers.last(), w)
    }
}

/// Whether the type's values are at most eight bytes of a fixed width. The
/// dictionary of such a column is limited by its entries alone.
pub open spec fn narrow(dt: DataType) -> bool {
    0 < types::width(dt) <= 8
}

/// The limits on a column's dictionary.
pub struct Limits {
    pub total_bytes: nat,
    pub entries: nat,
}

/// Whether a dictionary of the values stays within the limits.
pub open spec fn within(dt: DataType, vs: Seq<Seq<u8>>, limits: Limits) -> bool {
    &&& distinct(vs).len() <= limits.entries
    &&& narrow(dt) || flat(distinct(vs)).len() <= limits.total_bytes
}

/// The bytes that the dictionary encoding of the values takes.
pub open spec fn dict_size(vs: Seq<Seq<u8>>) -> int {
    let n = distinct(vs).len();
    varint::leb(n).len() + flat(distinct(vs)).len() + bits::byte_count(
        (vs.len() * bits::width_for(n)) as int,
    )
}

/// The encoding of a column.
pub open spec fn kind(dt: DataType, rows: Seq<CellView>, limits: Limits) -> u8 {
    let vs = vals(dt, rows);
    if vs.len() == 0 {
        ENCODING_ALL_NULL
    } else if all_same(vs) {
        ENCODING_CONST
    } else if within(dt, vs, limits) && distinct(vs).len() >= 2 && dict_size(vs) < flat(vs).len() {
        ENCODING_DICT
    } else {
        ENCODING_PLAIN
    }
}

/// Whether a column holds both values and nulls.
pub open spec fn has_nulls(dt: DataType, rows: Seq<CellView>) -> bool {
    0 < vals(dt, rows).len() < rows.len()
}

/// The constant of a column, where it is encoded as one.
pub open spec fn const_part(dt: DataType, rows: Seq<CellView>, limits: Limits) -> Seq<u8> {
    if kind(dt, rows, limits) == ENCODING_CONST {
        vals(dt, rows)[0]
    } else {
        Seq::empty()
    }
}

/// The table of distinct values of a column, where it is encoded with one.
pub open spec fn dict_part(dt: DataType, rows: Seq<CellView>, limits: Limits) -> Seq<u8> {
    if kind(dt, rows, limits) == ENCODING_DICT {
        let d = distinct(vals(dt, rows));
        varint::leb(d.len()) + flat(d)
    } else {
        Seq::empty()
    }
}

/// The null bitmap of a column, where it has nulls.
pub open spec fn null_part(dt: DataType, rows: Seq<CellView>) -> Seq<u8> {
    if has_nulls(dt, rows) {
        bits::packed(nulls(rows))
    } else {
        Seq::empty()
    }
}

/// The values or the indices of a column, where it is not constant.
pub open spec fn data_part(dt: DataType, rows: Seq<CellView>, limits: Limits) -> Seq<u8> {
    let vs = vals(dt, rows);
    let k = kind(dt, rows, limits);
    if k == ENCODING_PLAIN {
        flat(vs)
    } else if k == ENCODING_DICT {
        bits::packed(index_bits(indices(vs), bits::width_for(distinct(vs).len())))
    } else {
        Seq::empty()
    }
}

/// The encodings of the columns, two bits each.
pub open spec fn kind_bits(kinds: Seq<u8>) -> Seq<bool> {
    Seq::new(
        2 * kinds.len(),
        |j: int| if j % 2 == 0 {
            kinds[j / 2] % 2 == 1
        } else {
            kinds[j / 2] / 2 % 2 == 1
        },
    )
}

/// The encodings of the columns of a bucket.
pub open spec fn kinds(dts: Seq<DataType>, rows: Seq<Seq<CellView>>, limits: Limits) -> Seq<u8> {
    Seq::new(dts.len(), |i: int| kind(dts[i], rows[i], limits))
}

/// Which columns of a bucket have nulls.
pub open spec fn null_flags(dts: Seq<DataType>, rows: Seq<Seq<CellView>>) -> Seq<bool> {
    Seq::new(dts.len(), |i: int| has_nulls(dts[i], rows[i]))
}

pub open spec fn const_parts(dts: Seq<DataType>, rows: Seq<Seq<CellView>>, limits: Limits) -> Seq<
    Seq<u8>,
> {
    Seq::new(dts.len(), |i: int| const_part(dts[i], rows[i], limits))
}

pub open spec fn dict_parts(dts: Seq<DataType>, rows: Seq<Seq<CellView>>, limits: Limits) -> Seq<
    Seq<u8>,
> {
    Seq::new(dts.len(), |i: int| dict_part(dts[i], rows[i], limits))
}

pub open spec fn null_parts(dts: Seq<DataType>, rows: Seq<Seq<CellView>>) -> Seq<Seq<u8>> {
    Seq::new(dts.len(), |i: int| null_part(dts[i], rows[i]))
}

pub open spec fn data_parts(dts: Seq<DataType>, rows: Seq<Seq<CellView>>, limits: Limits) -> Seq<
    Seq<u8>,
> {
    Seq::new(dts.len(), |i: int| data_part(dts[i], rows[i], limits))
}

/// The two header bitmaps of a bucket.
pub open spec fn header(dts: Seq<DataType>, rows: Seq<Seq<CellView>>, limits: Limits) -> Seq<u8> {
    bits::packed(kind_bits(kinds(dts, rows, limits))) + bits::packed(null_flags(dts, rows))
}

/// The bytes of a bucket: the header, and then, for all columns in turn, the
/// constants, the tables of distinct values, the null bitmaps and the data.
pub open spec fn bucket_bytes(
    dts: Seq<DataType>,
    rows: Seq<Seq<CellView>>,
    limits: Limits,
) -> Seq<u8> {
    header(dts, rows, limits) + flat(const_parts(dts, rows, limits)) + flat(
        dict_parts(dts, rows, limits),
    ) + flat(null_parts(dts, rows)) + flat(data_parts(dts, rows, limits))
}

/// The page of a column in a paged bucket, if it has one: what the bucket holds of
/// the column behind its constant.
pub open spec fn page(dt: DataType, rows: Seq<CellView>, limits: Limits) -> Option<Seq<u8>> {
    let k = kind(dt, rows, limits);
    if k == ENCODING_ALL_NULL || (k == ENCODING_CONST && !has_nulls(dt, rows)) {
        None
    } else {
        Some(dict_part(dt, rows, limits) + null_part(dt, rows) + data_part(dt, rows, limits))
    }
}

/// Cells that a column of the type accepts and that are short enough to store.
pub open spec fn acceptable(dt: DataType, rows: Seq<CellView>) -> bool {
    forall|i: int|
        0 <= i < rows.len() ==> values::cell_error(dt, #[trigger] rows[i]) is None
            && values::cell_fits(rows[i])
}

pub proof fn lemma_flat_push(parts: Seq<Seq<u8>>, p: Seq<u8>)
    ensures
        flat(parts.push(p)) == flat(parts) + p,
{
    assert(parts.push(p).drop_last() =~= parts);
}

pub proof fn lemma_flat_split(parts: Seq<Seq<u8>>, k: int)
    requires
        0 <= k <= parts.len(),
    ensures
        flat(parts) == flat(parts.take(k)) + flat(parts.skip(k)),
    decreases parts.len(),
{
    if k == parts.len() {
        assert(parts.take(k) =~= parts);
        assert(parts.skip(k) =~= Seq::<Seq<u8>>::empty());
        assert(flat(parts) =~= flat(parts) + Seq::<u8>::empty());
    } else {
        let init = parts.drop_last();
        lemma_flat_split(init, k);
        assert(init.take(k) =~= parts.take(k));
        assert(parts.skip(k).drop_last() =~= init.skip(k));
        assert(parts.skip(k).last() == parts.last());
        assert(flat(parts) =~= flat(parts.take(k)) + flat(parts.skip(k)));
    }
}

/// The first part comes first.
pub proof fn lemma_flat_first(parts: Seq<Seq<u8>>)
    requires
        parts.len() > 0,
    ensures
        flat(parts) == parts[0] + flat(parts.drop_first()),
{
    lemma_flat_split(parts, 1);
    let one = parts.take(1);
    lemma_flat_push(Seq::<Seq<u8>>::empty(), parts[0]);
    assert(one =~= Seq::<Seq<u8>>::empty().push(parts[0]));
    assert(flat(one) =~= parts[0]);
    assert(parts.skip(1) =~= parts.drop_first());
}

pub proof fn lemma_vals_push(dt: DataType, rows: Seq<CellView>, c: CellView)
    ensures
        vals(dt, rows.push(c)) == if c == CellView::Null {
            vals(dt, rows)
        } else {
            vals(dt, rows).push(values::stored(dt, c))
        },
{
    assert(rows.push(c).drop_last() =~= rows);
}

pub proof fn lemma_vals_len(dt: DataType, rows: Seq<CellView>)
    ensures
        vals(dt, rows).len() <= rows.len(),
    decreases rows.len(),
{
    if rows.len() > 0 {
        lemma_vals_len(dt, rows.drop_last());
    }
}

/// No value occurs twice among the distinct values, and every value occurs.
pub proof fn lemma_distinct(vs: Seq<Seq<u8>>)
    ensures
        distinct(vs).no_duplicates(),
        distinct(vs).len() <= vs.len(),
        flat(distinct(vs)).len() <= flat(vs).len(),
        forall|i: int| 0 <= i < vs.len() ==> distinct(vs).contains(#[trigger] vs[i]),
        forall|j: int|
            0 <= j < distinct(vs).len() ==> vs.contains(#[trigger] distinct(vs)[j]),
    decreases vs.len(),
{
    if vs.len() > 0 {
        let init = vs.drop_last();
        let d = distinct(init);
        lemma_distinct(init);
        if !d.contains(vs.last()) {
            lemma_flat_push(d, vs.last());
            assert(distinct(vs)[d.len() as int] == vs.last());
        }
        assert forall|i: int| 0 <= i < vs.len() implies distinct(vs).contains(
            #[trigger] vs[i],
        ) by {
            if i < init.len() {
                assert(init[i] == vs[i]);
                let j = choose|j: int| 0 <= j < d.len() && d[j] == vs[i];
                assert(distinct(vs)[j] == vs[i]);
            }
        }
        assert forall|j: int| 0 <= j < distinct(vs).len() implies vs.contains(
            #[trigger] distinct(vs)[j],
        ) by {
            if j < d.len() {
                assert(init.contains(d[j]));
                let i = choose|i: int| 0 <= i < init.len() && init[i] == d[j];
                assert(vs[i] == d[j]);
            } else {
                assert(vs[vs.len() - 1] == vs.last());
            }
        }
    }
}

pub proof fn lemma_distinct_push(vs: Seq<Seq<u8>>, v: Seq<u8>)
    ensures
        distinct(vs.push(v)) == if distinct(vs).contains(v) {
            distinct(vs)
        } else {
            distinct(vs).push(v)
        },
{
    assert(vs.push(v).drop_last() =~= vs);
}

/// Indices already given stay as they are when a value is added.
pub proof fn lemma_indices_push(vs: Seq<Seq<u8>>, v: Seq<u8>)
    ensures
        indices(vs.push(v)) == indices(vs).push(distinct(vs.push(v)).index_of(v) as nat),
        0 <= distinct(vs.push(v)).index_of(v) < distinct(vs.push(v)).len(),
        distinct(vs.push(v))[distinct(vs.push(v)).index_of(v)] == v,
{
    let all = vs.push(v);
    lemma_distinct(vs);
    lemma_distinct(all);
    lemma_distinct_push(vs, v);
    let d = distinct(vs);
    let e = distinct(all);
    assert(all[vs.len() as int] == v);
    assert(e.contains(v));
    assert forall|i: int| 0 <= i < vs.len() implies indices(all)[i] == indices(vs)[i] by {
        assert(all[i] == vs[i]);
        assert(d.contains(vs[i]));
        let p = d.index_of(vs[i]);
        let q = e.index_of(vs[i]);
        assert(e.contains(all[i]));
        assert(0 <= p < d.len() && d[p] == vs[i]);
        assert(0 <= q < e.len() && e[q] == vs[i]);
        assert(e[p] == d[p]);
        assert(p == q);
    }
    assert(indices(all) =~= indices(vs).push(e.index_of(v) as nat));
}

/// A dictionary that is within its limits was so all along.
pub proof fn lemma_within_push(dt: DataType, vs: Seq<Seq<u8>>, v: Seq<u8>, limits: Limits)
    ensures
        within(dt, vs.push(v), limits) ==> within(dt, vs, limits),
{
    lemma_distinct_push(vs, v);
    if !distinct(vs).contains(v) {
        lemma_flat_push(distinct(vs), v);
    }
}

pub proof fn lemma_index_bits_len(numbers: Seq<nat>, w: nat)
    ensures
        index_bits(numbers, w).len() == numbers.len() * w,
    decreases numbers.len(),
{
    if numbers.len() > 0 {
        let m = numbers.drop_last();
        lemma_index_bits_len(m, w);
        bits::lemma_low_bits_len(numbers.last(), w);
        assert(numbers.len() * w == m.len() * w + w) by (nonlinear_arith)
            requires
                numbers.len() == m.len() + 1,
        ;
    } else {
        assert(0 * w == 0) by (nonlinear_arith);
    }
}

} // verus!
