//! A bucket on its own: how its columns are laid out, and that they are read as they were
//! written.

use crate::batch_laws;
use crate::bits;
use crate::blocks;
use crate::bytes;
use crate::decoding;
use crate::encoding;
use crate::encoding::Limits;
use crate::error::Error;
use crate::image;
use crate::image::Settings;
use crate::layout;
use crate::layout::GroupView;
use crate::round_trip;
use crate::schema;
use crate::schema::SchemaView;
use crate::types;
use crate::types::DataType;
use crate::values;
use crate::values::CellView;
use crate::varint;
use vstd::prelude::*;

verus! {

/// Whether the columns of a bucket have equally many cells, each of them null or of its
/// column's type.
pub open spec fn is_typed_bucket(dts: Seq<DataType>, rows: Seq<Seq<CellView>>, num_rows: nat) -> bool {
    &&& dts.len() == rows.len()
    &&& forall|i: int| 0 <= i < dts.len() ==> types::valid_type(#[trigger] dts[i]) is Ok
    &&& forall|i: int| 0 <= i < rows.len() ==> (#[trigger] rows[i]).len() == num_rows
    &&& forall|i: int, j: int|
        0 <= i < rows.len() && 0 <= j < rows[i].len() ==> (#[trigger] rows[i][j]) == CellView::Null
            || batch_laws::is_of(dts[i], rows[i][j])
}

/// The columns of a bucket are read as the cells that were written, all at once or one by
/// one, whatever the limits of its tables.
pub proof fn lemma_bucket_is_read(
    dts: Seq<DataType>,
    rows: Seq<Seq<CellView>>,
    num_rows: nat,
    limits: Limits,
)
    requires
        is_typed_bucket(dts, rows, num_rows),
        limits.entries <= u32::MAX,
    ensures
        ({
            let s = encoding::bucket_bytes(dts, rows, limits);
            let opened = decoding::parse_bucket(dts, s, num_rows);
            &&& opened is Ok
            &&& decoding::bucket_columns(dts, opened->Ok_0, s, num_rows) == Ok::<
                Seq<Seq<CellView>>,
                Error,
            >(rows)
            &&& forall|i: int|
                0 <= i < dts.len() ==> #[trigger] decoding::bucket_column(
                    dts,
                    opened->Ok_0,
                    s,
                    num_rows,
                    i,
                ) == Ok::<Seq<CellView>, Error>(rows[i])
        }),
{
    assert forall|i: int| 0 <= i < rows.len() implies (#[trigger] rows[i]).len() == num_rows
        && round_trip::exact_column(dts[i], rows[i]) by {
        assert(types::valid_type(dts[i]) is Ok);
        let column = rows[i];
        assert forall|j: int| 0 <= j < column.len() implies values::cell_error(
            dts[i],
            #[trigger] column[j],
        ) is None && values::cell_fits(column[j]) && values::exact_cell(dts[i], column[j]) by {
            assert(rows[i][j] == column[j]);
        }
    }
    round_trip::lemma_bucket_round_trip(dts, rows, num_rows, limits);
    let s = encoding::bucket_bytes(dts, rows, limits);
    let info = decoding::parse_bucket(dts, s, num_rows)->Ok_0;
    lemma_each_column(dts, info, s, num_rows, 0, Seq::empty(), rows);
}

proof fn lemma_each_column(
    dts: Seq<DataType>,
    info: decoding::BucketInfo,
    s: Seq<u8>,
    num_rows: nat,
    i: int,
    acc: Seq<Seq<CellView>>,
    rows: Seq<Seq<CellView>>,
)
    requires
        0 <= i <= dts.len() == rows.len(),
        acc.len() == i,
        decoding::columns_from(dts, info, s, num_rows, i, acc) == Ok::<Seq<Seq<CellView>>, Error>(
            rows,
        ),
    ensures
        acc == rows.take(i),
        forall|k: int|
            i <= k < dts.len() ==> #[trigger] decoding::bucket_column(dts, info, s, num_rows, k)
                == Ok::<Seq<CellView>, Error>(rows[k]),
    decreases dts.len() - i,
{
    if i >= dts.len() {
        assert(rows.take(i) =~= rows);
    } else {
        let c = decoding::bucket_column(dts, info, s, num_rows, i);
        lemma_each_column(dts, info, s, num_rows, i + 1, acc.push(c->Ok_0), rows);
        assert(acc.push(c->Ok_0)[i] == rows.take(i + 1)[i]);
        assert(acc =~= rows.take(i)) by {
            assert forall|k: int| 0 <= k < i implies acc[k] == rows[k] by {
                assert(acc.push(c->Ok_0)[k] == rows.take(i + 1)[k]);
            }
        }
    }
}

/// A bucket is its two header bitmaps, then of all columns in turn the constants, the tables,
/// the null bitmaps and the data.
pub proof fn lemma_bucket_spelled(dts: Seq<DataType>, rows: Seq<Seq<CellView>>, limits: Limits)
    ensures
        encoding::bucket_bytes(dts, rows, limits) == bits::packed(
            encoding::kind_bits(encoding::kinds(dts, rows, limits)),
        ) + bits::packed(encoding::null_flags(dts, rows)) + encoding::flat(
            encoding::const_parts(dts, rows, limits),
        ) + encoding::flat(encoding::dict_parts(dts, rows, limits)) + encoding::flat(
            encoding::null_parts(dts, rows),
        ) + encoding::flat(encoding::data_parts(dts, rows, limits)),
        encoding::kinds(dts, rows, limits).len() == dts.len(),
        encoding::null_flags(dts, rows).len() == dts.len(),
        forall|i: int|
            0 <= i < dts.len() ==> #[trigger] encoding::kinds(dts, rows, limits)[i]
                == encoding::kind(dts[i], rows[i], limits),
        forall|i: int|
            0 <= i < dts.len() ==> (#[trigger] encoding::null_flags(dts, rows)[i] <==> 0
                < encoding::vals(dts[i], rows[i]).len() < rows[i].len()),
        forall|i: int|
            0 <= i < dts.len() ==> (#[trigger] encoding::kind_bits(
                encoding::kinds(dts, rows, limits),
            )[2 * i] <==> encoding::kind(dts[i], rows[i], limits) % 2 == 1),
        forall|i: int|
            0 <= i < dts.len() ==> (#[trigger] encoding::kind_bits(
                encoding::kinds(dts, rows, limits),
            )[2 * i + 1] <==> encoding::kind(dts[i], rows[i], limits) / 2 % 2 == 1),
{
}

/// What a bucket holds of one column: a constant is its one value, a table is the number of
/// its entries and the entries in the order in which they first occur, and the data are the
/// values or the places of the values in the table.
pub proof fn lemma_parts_spelled(dt: DataType, rows: Seq<CellView>, limits: Limits)
    ensures
        ({
            let k = encoding::kind(dt, rows, limits);
            let vs = encoding::vals(dt, rows);
            let d = encoding::distinct(vs);
            &&& encoding::const_part(dt, rows, limits) == if k == 1 {
                vs[0]
            } else {
                Seq::empty()
            }
            &&& encoding::dict_part(dt, rows, limits) == if k == 2 {
                varint::leb(d.len()) + encoding::flat(d)
            } else {
                Seq::empty()
            }
            &&& encoding::data_part(dt, rows, limits) == if k == 3 {
                encoding::flat(vs)
            } else if k == 2 {
                bits::packed(encoding::index_bits(encoding::indices(vs), bits::width_for(d.len())))
            } else {
                Seq::empty()
            }
            &&& encoding::indices(vs).len() == vs.len()
            &&& forall|i: int|
                0 <= i < vs.len() ==> #[trigger] encoding::indices(vs)[i] < d.len()
                    && d[encoding::indices(vs)[i] as int] == vs[i]
        }),
{
    let vs = encoding::vals(dt, rows);
    let d = encoding::distinct(vs);
    encoding::lemma_distinct(vs);
    assert forall|i: int| 0 <= i < vs.len() implies #[trigger] encoding::indices(vs)[i] < d.len()
        && d[encoding::indices(vs)[i] as int] == vs[i] by {
        assert(d.contains(vs[i]));
    }
}

/// Parts are flattened one behind the other.
pub proof fn lemma_flat(parts: Seq<Seq<u8>>)
    ensures
        encoding::flat(parts) == parts.flatten(),
    decreases parts.len(),
{
    parts.lemma_flatten_and_flatten_alt_are_equivalent();
    if parts.len() > 0 {
        lemma_flat(parts.drop_last());
        parts.drop_last().lemma_flatten_and_flatten_alt_are_equivalent();
    }
}

/// The block of a column in a paged bucket, and the bucket: the sizes of all slots in four
/// bytes each, and the slots.
pub proof fn lemma_paged_spelled(
    set: Settings,
    dts: Seq<DataType>,
    rows: Seq<Seq<CellView>>,
    i: int,
)
    requires
        0 <= i < dts.len(),
    ensures
        ({
            let dt = dts[i];
            let column = rows[i];
            let content = image::page_content(dt, column, set.limits);
            let k = encoding::kind(dt, column, set.limits);
            let slots = image::slots(set, dts, rows);
            &&& content.len() >= 2
            &&& content[0] == k
            &&& content[1] == if 0 < encoding::vals(dt, column).len() < column.len() {
                1u8
            } else {
                0u8
            }
            &&& content.skip(2) == encoding::const_part(dt, column, set.limits)
                + encoding::dict_part(dt, column, set.limits) + encoding::null_part(dt, column)
                + encoding::data_part(dt, column, set.limits)
            &&& slots.len() == dts.len()
            &&& slots[i] == if k == 0 {
                Seq::empty()
            } else {
                varint::leb(content.len()) + blocks::zstd_frame(content, set.level)
            }
            &&& image::paged_bytes(set, dts, rows) == encoding::flat(image::size_parts(slots))
                + encoding::flat(slots)
            &&& image::size_parts(slots)[i] == bytes::le4(slots[i].len())
        }),
{
    let dt = dts[i];
    let column = rows[i];
    let content = image::page_content(dt, column, set.limits);
    let a = encoding::const_part(dt, column, set.limits);
    let b = encoding::dict_part(dt, column, set.limits);
    let c = encoding::null_part(dt, column);
    let d = encoding::data_part(dt, column, set.limits);
    assert(content.skip(2) =~= a + b + c + d);
}

/// The end of a file: the size of the schema before compression and its block, the index, and
/// the footer, which says where both start.
pub proof fn lemma_end_spelled(set: Settings, s: SchemaView, groups: Seq<GroupView>, base: int)
    ensures
        ({
            let raw = schema::schema_bytes(s);
            let block = bytes::be(raw.len(), 4) + blocks::packed(set.compression, set.level, raw);
            let f = image::footer_of(set, s, groups, base);
            &&& image::schema_block(set, s) == block
            &&& image::tail_bytes(set, s, groups, base) == block + layout::index_bytes(
                groups,
                groups.len(),
            ) + layout::footer_bytes(f)
            &&& 0 <= base && base + block.len() <= u64::MAX ==> f.schema_offset == base
                && f.index_offset == base + block.len()
            &&& s.num_buckets <= u32::MAX ==> f.num_buckets == s.num_buckets
            &&& groups.len() <= u32::MAX ==> f.num_row_groups == groups.len()
            &&& f.compression == set.compression
        }),
{
}

/// Where the buckets of a row group start: each that is stored right behind those before it.
pub proof fn lemma_bucket_places(
    set: Settings,
    s: SchemaView,
    d: image::GroupData,
    base: int,
    b: int,
)
    requires
        0 <= b < s.num_buckets,
        0 <= base,
        base + encoding::flat(image::images(set, s, d)).len() <= u64::MAX,
    ensures
        ({
            let g = image::group_view(set, s, d, base);
            &&& g.num_rows == d.num_rows
            &&& g.stats == d.stats
            &&& g.offsets.len() == s.num_buckets
            &&& g.layouts.len() == s.num_buckets
            &&& !(g.layouts[b] is Empty) ==> g.offsets[b] == base + encoding::flat(
                image::images(set, s, d).take(b),
            ).len()
            &&& g.layouts[b] is Empty <==> d.buckets[b].len() == 0 || d.buckets[b][0].len() == 0
            &&& g.layouts[b] is Empty ==> g.offsets[b] == 0
            &&& g.layouts[b].sizes().0 == image::bucket_image(
                set,
                image::bucket_types(s, b),
                d.buckets[b],
            ).len()
            &&& g.layouts[b] is Paged <==> !(g.layouts[b] is Empty) && image::is_paged(
                set,
                image::bucket_types(s, b),
                d.buckets[b],
            )
        }),
{
    let images = image::images(set, s, d);
    encoding::lemma_flat_split(images, b);
}

} // verus!
