//! What is written to a file is what is read back from it.

use crate::batch;
use crate::blocks;
use crate::bytes;
use crate::decoding;
use crate::encoding;
use crate::encoding::Limits;
use crate::error::Error;
use crate::format::{COMPRESSION_NONE, COMPRESSION_ZSTD, ENCODING_ALL_NULL, ENCODING_CONST};
use crate::image;
use crate::image::{GroupData, Settings};
use crate::layout;
use crate::layout::{GroupView, LayoutView};
use crate::reader;
use crate::round_trip;
use crate::row_group;
use crate::row_group::{BatchView, BucketView, FileView, PageView};
use crate::schema;
use crate::schema::SchemaView;
use crate::stats;
use crate::stats::ColumnStatsView;
use crate::types::DataType;
use crate::values::{CellView, ValueView};
use crate::varint;
use crate::writer;
use vstd::prelude::*;

verus! {

/// Whether a page reads as the given cells.
pub open spec fn reads_as(dt: DataType, p: PageView, rows: Seq<CellView>) -> bool {
    decoding::page_cells(dt, p.kind, p.flag, p.constant, p.info, p.bytes, rows.len()) == Ok::<
        Seq<CellView>,
        Error,
    >(rows)
}

/// What a column's block holds reads as the cells that were written.
pub proof fn lemma_content_round_trip(dt: DataType, rows: Seq<CellView>, limits: Limits)
    requires
        round_trip::exact_column(dt, rows),
        limits.entries <= u32::MAX,
        encoding::kind(dt, rows, limits) != ENCODING_ALL_NULL,
    ensures
        row_group::parse_content(
            dt,
            image::page_content(dt, rows, limits),
            rows.len(),
        ) is Ok,
        reads_as(
            dt,
            row_group::parse_content(
                dt,
                image::page_content(dt, rows, limits),
                rows.len(),
            )->Ok_0,
            rows,
        ),
{
    let content = image::page_content(dt, rows, limits);
    let k = encoding::kind(dt, rows, limits);
    let constant = encoding::const_part(dt, rows, limits);
    lemma_content_parts(dt, rows, limits);
    if k == ENCODING_CONST {
        round_trip::lemma_vals_are_values(dt, rows);
        round_trip::lemma_value_found(dt, constant, content, 2, Error::PageConstTruncated);
    }
    let tail = content.skip(2 + constant.len() as int);
    assert(row_group::content_constant(dt, content) == Ok::<(ValueView, int), Error>(
        (round_trip::found_const(dt, rows, limits), 2 + constant.len() as int),
    ));
    assert(tail.subrange(0, tail.len() as int) =~= tail);
    round_trip::lemma_page_round_trip(dt, rows, limits, tail, 0);
}

/// The parts of what a column's block holds.
proof fn lemma_content_parts(dt: DataType, rows: Seq<CellView>, limits: Limits)
    ensures
        ({
            let content = image::page_content(dt, rows, limits);
            let constant = encoding::const_part(dt, rows, limits);
            &&& content.len() >= 2
            &&& content[0] == encoding::kind(dt, rows, limits)
            &&& (content[1] % 2 == 1) == encoding::has_nulls(dt, rows)
            &&& bytes::has_at(content, 2, constant)
            &&& content.skip(2 + constant.len() as int) == encoding::dict_part(dt, rows, limits)
                + encoding::null_part(dt, rows) + encoding::data_part(dt, rows, limits)
        }),
{
    let content = image::page_content(dt, rows, limits);
    let constant = encoding::const_part(dt, rows, limits);
    let body = encoding::dict_part(dt, rows, limits) + encoding::null_part(dt, rows)
        + encoding::data_part(dt, rows, limits);
    let rest = match encoding::page(dt, rows, limits) {
        Some(p) => p,
        None => Seq::empty(),
    };
    assert(rest =~= body);
    assert(content.subrange(2, 2 + constant.len() as int) =~= constant);
    assert(content.skip(2 + constant.len() as int) =~= body);
}

/// The slot of a column reads as the cells that were written.
pub proof fn lemma_slot_round_trip(set: Settings, dt: DataType, rows: Seq<CellView>)
    requires
        round_trip::exact_column(dt, rows),
        set.limits.entries <= u32::MAX,
        image::faithful_slot(set, dt, rows),
        u32::MAX <= isize::MAX,
    ensures
        row_group::parse_slot(dt, image::slot(set, dt, rows), rows.len()) is Ok,
        reads_as(
            dt,
            row_group::parse_slot(dt, image::slot(set, dt, rows), rows.len())->Ok_0,
            rows,
        ),
        row_group::is_sound_slot(image::slot(set, dt, rows)),
{
    reveal(row_group::parse_slot);
    let slot = image::slot(set, dt, rows);
    let limits = set.limits;
    if encoding::kind(dt, rows, limits) == ENCODING_ALL_NULL {
        let none = Seq::<u8>::empty();
        assert(none.subrange(0, 0) =~= encoding::dict_part(dt, rows, limits)
            + encoding::null_part(dt, rows) + encoding::data_part(dt, rows, limits));
        round_trip::lemma_page_round_trip(dt, rows, limits, none, 0);
    } else {
        let content = image::page_content(dt, rows, limits);
        let size = varint::leb(content.len());
        let frame = blocks::zstd_frame(content, set.level);
        varint::lemma_leb_nonempty(content.len());
        assert(slot.subrange(0, size.len() as int) =~= size);
        varint::lemma_u32_round_trip(slot, 0, content.len() as u32);
        assert(slot.skip(size.len() as int) =~= frame);
        lemma_content_round_trip(dt, rows, limits);
    }
}

/// The projected columns of a bucket.
pub open spec fn expected(want: Seq<bool>, rows: Seq<Seq<CellView>>) -> Seq<
    Option<Seq<CellView>>,
> {
    Seq::new(
        rows.len(),
        |k: int| if want[k] {
            Some(rows[k])
        } else {
            None
        },
    )
}

/// Whether pages read as the projected columns.
spec fn all_read_as(
    dts: Seq<DataType>,
    want: Seq<bool>,
    rows: Seq<Seq<CellView>>,
    pages: Seq<Option<PageView>>,
) -> bool {
    forall|k: int|
        0 <= k < pages.len() ==> if want[k] {
            #[trigger] pages[k] is Some && reads_as(dts[k], pages[k]->0, rows[k])
        } else {
            pages[k] is None
        }
}

proof fn lemma_pages(
    set: Settings,
    dts: Seq<DataType>,
    rows: Seq<Seq<CellView>>,
    want: Seq<bool>,
    num_rows: nat,
    k: int,
    acc: Seq<Option<PageView>>,
)
    requires
        round_trip::exact_columns(dts, rows, num_rows),
        set.limits.entries <= u32::MAX,
        u32::MAX <= isize::MAX,
        forall|i: int|
            0 <= i < dts.len() ==> image::faithful_slot(set, #[trigger] dts[i], rows[i]),
        want.len() == dts.len(),
        0 <= k <= dts.len(),
        acc.len() == k,
        all_read_as(dts, want, rows, acc),
    ensures
        match row_group::pages_from(
            dts,
            want,
            image::slots(set, dts, rows),
            num_rows,
            k,
            acc,
        ) {
            Ok(pages) => pages.len() == dts.len() && all_read_as(dts, want, rows, pages),
            Err(_) => false,
        },
    decreases dts.len() - k,
{
    if k < dts.len() {
        let slots = image::slots(set, dts, rows);
        assert(rows[k].len() == num_rows);
        if want[k] {
            lemma_slot_round_trip(set, dts[k], rows[k]);
            let p = row_group::parse_slot(dts[k], slots[k], num_rows)->Ok_0;
            lemma_pages(set, dts, rows, want, num_rows, k + 1, acc.push(Some(p)));
        } else {
            lemma_pages(set, dts, rows, want, num_rows, k + 1, acc.push(None));
        }
    }
}

proof fn lemma_page_columns(
    dts: Seq<DataType>,
    rows: Seq<Seq<CellView>>,
    want: Seq<bool>,
    pages: Seq<Option<PageView>>,
    num_rows: nat,
    k: int,
    acc: Seq<Option<Seq<CellView>>>,
)
    requires
        round_trip::exact_columns(dts, rows, num_rows),
        want.len() == dts.len(),
        pages.len() == dts.len(),
        all_read_as(dts, want, rows, pages),
        0 <= k <= dts.len(),
        acc == expected(want, rows).take(k),
    ensures
        row_group::page_columns_from(dts, pages, num_rows, k, acc) == Ok::<
            Seq<Option<Seq<CellView>>>,
            Error,
        >(expected(want, rows)),
    decreases dts.len() - k,
{
    let goal = expected(want, rows);
    if k < dts.len() {
        assert(rows[k].len() == num_rows);
        assert(acc.push(goal[k]) =~= goal.take(k + 1));
        assert(if want[k] {
            pages[k] is Some && reads_as(dts[k], pages[k]->0, rows[k])
        } else {
            pages[k] is None
        });
        lemma_page_columns(dts, rows, want, pages, num_rows, k + 1, acc.push(goal[k]));
    } else {
        assert(acc =~= goal);
    }
}

/// The sizes of some parts.
pub open spec fn part_sizes(parts: Seq<Seq<u8>>) -> Seq<nat> {
    Seq::new(parts.len(), |i: int| parts[i].len())
}

proof fn lemma_slots_size(parts: Seq<Seq<u8>>, k: nat)
    requires
        k <= parts.len(),
    ensures
        row_group::slots_size(part_sizes(parts), k) == encoding::flat(parts.take(k as int)).len(),
    decreases k,
{
    if k > 0 {
        lemma_slots_size(parts, (k - 1) as nat);
        assert(parts.take(k as int) =~= parts.take(k - 1).push(parts[k - 1]));
        encoding::lemma_flat_push(parts.take(k - 1), parts[k - 1]);
    } else {
        assert(parts.take(0) =~= Seq::<Seq<u8>>::empty());
    }
}

/// Where the sizes of some parts and the parts stand, the directory lists the
/// sizes and the slots are the parts.
pub proof fn lemma_directory_round_trip(file: Seq<u8>, offset: int, parts: Seq<Seq<u8>>)
    requires
        bytes::has_at(
            file,
            offset,
            encoding::flat(image::size_parts(parts)) + encoding::flat(parts),
        ),
        forall|i: int| 0 <= i < parts.len() ==> (#[trigger] parts[i]).len() <= u32::MAX,
    ensures
        encoding::flat(image::size_parts(parts)).len() == 4 * parts.len(),
        row_group::slot_sizes(
            file.subrange(offset, offset + 4 * parts.len()),
            parts.len(),
        ) == part_sizes(parts),
        row_group::slots_size(part_sizes(parts), parts.len()) == encoding::flat(parts).len(),
        row_group::slots_at(file, offset, part_sizes(parts)) == parts,
{
    let fields = image::size_parts(parts);
    let n = parts.len();
    assert forall|i: int| 0 <= i < n implies (#[trigger] fields[i]).len() == 4 by {
        assert(parts[i].len() <= u32::MAX);
        bytes::lemma_le4_round_trip(parts[i].len());
    }
    round_trip::lemma_flat_fixed(fields, 4);
    bytes::lemma_has_at_split(file, offset, encoding::flat(fields), encoding::flat(parts));
    let dir = file.subrange(offset, offset + 4 * n);
    let sizes = part_sizes(parts);
    assert forall|i: int| 0 <= i < n implies #[trigger] row_group::slot_sizes(dir, n)[i]
        == sizes[i] by {
        round_trip::lemma_flat_at(file, offset, fields, i);
        assert forall|j: int| 0 <= j < i implies (#[trigger] fields.take(i)[j]).len() == 4 by {
            assert(fields.take(i)[j] == fields[j]);
        }
        round_trip::lemma_flat_fixed(fields.take(i), 4);
        assert(parts[i].len() <= u32::MAX);
        bytes::lemma_le4_round_trip(parts[i].len());
        assert(dir.subrange(4 * i, 4 * i + 4) =~= fields[i]);
    }
    assert(row_group::slot_sizes(dir, n) =~= sizes);
    lemma_slots_size(parts, n);
    assert(parts.take(n as int) =~= parts);
    let slots = row_group::slots_at(file, offset, sizes);
    assert forall|i: int| 0 <= i < n implies #[trigger] slots[i] == parts[i] by {
        lemma_slots_size(parts, i as nat);
        round_trip::lemma_flat_at(file, offset + 4 * n, parts, i);
        assert(slots[i] =~= parts[i]);
    }
    assert(slots =~= parts);
}

/// Whether a row group holds the given columns: each bucket its part of them, and
/// the statistics are theirs.
pub open spec fn records(s: SchemaView, d: GroupData, cols: Seq<Seq<CellView>>) -> bool {
    &&& cols.len() == s.columns.len()
    &&& forall|c: int| 0 <= c < cols.len() ==> (#[trigger] cols[c]).len() == d.num_rows
    &&& d.buckets.len() == s.num_buckets
    &&& forall|b: int|
        0 <= b < s.num_buckets ==> #[trigger] d.buckets[b] == image::bucket_part(s, cols, b)
    &&& forall|i: int|
        0 <= i < d.stats.len() ==> {
            let t = #[trigger] d.stats[i];
            &&& t.column_index < s.columns.len()
            &&& t == stats::with_cells(
                s.columns[t.column_index as int].field.data_type,
                stats::no_stats(t.column_index),
                cols[t.column_index as int],
            )
        }
}

/// Columns whose cells are accepted, lose nothing when they are stored and have no
/// nulls where they are not nullable.
pub open spec fn lossless(s: SchemaView, cols: Seq<Seq<CellView>>) -> bool {
    &&& forall|c: int|
        0 <= c < cols.len() ==> round_trip::exact_column(
            s.columns[c].field.data_type,
            #[trigger] cols[c],
        )
    &&& !batch::misplaced_null(writer::schema_nullable(s), cols)
}

/// Settings with which files can be read back.
pub open spec fn usable(set: Settings) -> bool {
    &&& set.compression == COMPRESSION_NONE || set.compression == COMPRESSION_ZSTD
    &&& set.limits.entries <= u32::MAX
}

proof fn lemma_bucket_exact(
    s: SchemaView,
    d: GroupData,
    cols: Seq<Seq<CellView>>,
    b: int,
)
    requires
        s.columns.len() <= u32::MAX,
        records(s, d, cols),
        lossless(s, cols),
        0 <= b < s.num_buckets,
    ensures
        round_trip::exact_columns(image::bucket_types(s, b), d.buckets[b], d.num_rows),
        image::bucket_types(s, b).len() == image::bucket_members(s, b).len(),
        d.buckets[b].len() == image::bucket_members(s, b).len(),
{
    schema::lemma_members(s.columns, b as nat, s.columns.len());
    let dts = image::bucket_types(s, b);
    let rows = d.buckets[b];
    let members = image::bucket_members(s, b);
    assert(rows == image::bucket_part(s, cols, b));
    assert forall|i: int| 0 <= i < rows.len() implies (#[trigger] rows[i]).len() == d.num_rows
        && round_trip::exact_column(dts[i], rows[i]) by {
        let c = members[i] as int;
        assert(rows[i] == cols[c]);
        assert(cols[c].len() == d.num_rows);
    }
}

/// A bucket with columns has a header.
proof fn lemma_bucket_bytes_nonempty(
    dts: Seq<DataType>,
    rows: Seq<Seq<CellView>>,
    limits: Limits,
)
    requires
        dts.len() > 0,
    ensures
        encoding::bucket_bytes(dts, rows, limits).len() > 0,
{
    let flags = encoding::kind_bits(encoding::kinds(dts, rows, limits));
    assert(flags.len() == 2 * dts.len());
    assert(crate::bits::packed(flags).len() > 0);
}

/// A bucket that stands in the file opens without an error, and its projected
/// columns read as the cells that were written.
proof fn lemma_bucket_opens(
    f: FileView,
    set: Settings,
    file: Seq<u8>,
    g: GroupView,
    d: GroupData,
    cols: Seq<Seq<CellView>>,
    projected: Seq<bool>,
    b: int,
)
    requires
        f.compression == set.compression,
        usable(set),
        u32::MAX <= isize::MAX,
        f.schema.columns.len() <= u32::MAX,
        image::placed(file, set, f.schema, g, d),
        layout::compact(g),
        records(f.schema, d, cols),
        lossless(f.schema, cols),
        d.num_rows > 0,
        projected.len() == f.schema.columns.len(),
        0 <= b < f.schema.num_buckets,
    ensures
        row_group::layout_error(f, g, projected, b) is None,
        row_group::open_bucket(f, file, g, projected, b) is Ok,
        row_group::early_error(f, file, g, projected, b) is None,
        row_group::late_error(f, file, g, projected, b) is None,
        row_group::is_sound_bucket(f, file, g, projected, b),
        row_group::read_bucket(
            image::bucket_types(f.schema, b),
            row_group::wanted(f.schema, projected, b),
            row_group::open_bucket(f, file, g, projected, b)->Ok_0,
            d.num_rows,
        ) == Ok::<Seq<Option<Seq<CellView>>>, Error>(
            expected(row_group::wanted(f.schema, projected, b), d.buckets[b]),
        ),
{
    reveal(row_group::open_bucket);
    reveal(row_group::is_sound_bucket);
    let s = f.schema;
    let dts = image::bucket_types(s, b);
    let rows = d.buckets[b];
    let want = row_group::wanted(s, projected, b);
    let members = image::bucket_members(s, b);
    lemma_bucket_exact(s, d, cols, b);
    schema::lemma_members(s.columns, b as nat, s.columns.len());
    let goal = expected(want, rows);
    if !row_group::is_needed(s, projected, b) {
        assert forall|k: int| 0 <= k < rows.len() implies goal[k] is None by {
            assert(!projected[members[k] as int]);
        }
        assert(goal =~= Seq::new(dts.len(), |k: int| None::<Seq<CellView>>));
    } else {
        assert(rows.len() > 0);
        assert(rows[0].len() == d.num_rows);
        assert(g.layouts[b] == image::bucket_layout(set, dts, rows));
        assert(g.layouts[b] != LayoutView::Empty);
        let offset = g.offsets[b] as int;
        assert(bytes::has_at(file, offset, image::images(set, s, d)[b]));
        assert(image::images(set, s, d)[b] == image::bucket_image(set, dts, rows));
        assert(layout::short(g.layouts[b]));
        if image::is_paged(set, dts, rows) {
            lemma_paged_opens(f, set, file, g, d, projected, b);
        } else {
            lemma_monolithic_opens(f, set, file, g, d, projected, b);
        }
    }
}

proof fn lemma_monolithic_opens(
    f: FileView,
    set: Settings,
    file: Seq<u8>,
    g: GroupView,
    d: GroupData,
    projected: Seq<bool>,
    b: int,
)
    requires
        f.compression == set.compression,
        usable(set),
        u32::MAX <= isize::MAX,
        round_trip::exact_columns(
            image::bucket_types(f.schema, b),
            d.buckets[b],
            d.num_rows,
        ),
        d.num_rows > 0,
        g.num_rows == d.num_rows,
        row_group::is_needed(f.schema, projected, b),
        image::is_stored(d.buckets[b]),
        !image::is_paged(set, image::bucket_types(f.schema, b), d.buckets[b]),
        g.layouts[b] == image::bucket_layout(
            set,
            image::bucket_types(f.schema, b),
            d.buckets[b],
        ),
        layout::short(g.layouts[b]),
        bytes::has_at(
            file,
            g.offsets[b] as int,
            image::bucket_image(set, image::bucket_types(f.schema, b), d.buckets[b]),
        ),
        image::faithful_bucket(set, image::bucket_types(f.schema, b), d.buckets[b]),
    ensures
        row_group::layout_error(f, g, projected, b) is None,
        row_group::open_bucket(f, file, g, projected, b) is Ok,
        row_group::early_error(f, file, g, projected, b) is None,
        row_group::late_error(f, file, g, projected, b) is None,
        row_group::is_sound_bucket(f, file, g, projected, b),
        row_group::read_bucket(
            image::bucket_types(f.schema, b),
            row_group::wanted(f.schema, projected, b),
            row_group::open_bucket(f, file, g, projected, b)->Ok_0,
            d.num_rows,
        ) == Ok::<Seq<Option<Seq<CellView>>>, Error>(
            expected(row_group::wanted(f.schema, projected, b), d.buckets[b]),
        ),
{
    reveal(row_group::open_bucket);
    reveal(row_group::is_sound_bucket);
    let dts = image::bucket_types(f.schema, b);
    let rows = d.buckets[b];
    let raw = encoding::bucket_bytes(dts, rows, set.limits);
    let block = image::bucket_image(set, dts, rows);
    let want = row_group::wanted(f.schema, projected, b);
    lemma_bucket_bytes_nonempty(dts, rows, set.limits);
    blocks::lemma_unpacked(set.compression, set.level, raw);
    round_trip::lemma_bucket_round_trip(dts, rows, d.num_rows, set.limits);
    let o = row_group::open_bucket(f, file, g, projected, b);
    assert(o is Ok);
    assert(row_group::read_bucket(dts, want, o->Ok_0, d.num_rows)->Ok_0 =~= expected(want, rows));
}

proof fn lemma_paged_opens(
    f: FileView,
    set: Settings,
    file: Seq<u8>,
    g: GroupView,
    d: GroupData,
    projected: Seq<bool>,
    b: int,
)
    requires
        f.compression == set.compression,
        usable(set),
        u32::MAX <= isize::MAX,
        round_trip::exact_columns(
            image::bucket_types(f.schema, b),
            d.buckets[b],
            d.num_rows,
        ),
        image::bucket_types(f.schema, b).len() == image::bucket_members(f.schema, b).len(),
        g.num_rows == d.num_rows,
        row_group::is_needed(f.schema, projected, b),
        image::is_stored(d.buckets[b]),
        image::is_paged(set, image::bucket_types(f.schema, b), d.buckets[b]),
        g.layouts[b] == image::bucket_layout(
            set,
            image::bucket_types(f.schema, b),
            d.buckets[b],
        ),
        bytes::has_at(
            file,
            g.offsets[b] as int,
            image::bucket_image(set, image::bucket_types(f.schema, b), d.buckets[b]),
        ),
        image::faithful_bucket(set, image::bucket_types(f.schema, b), d.buckets[b]),
    ensures
        row_group::layout_error(f, g, projected, b) is None,
        row_group::open_bucket(f, file, g, projected, b) is Ok,
        row_group::early_error(f, file, g, projected, b) is None,
        row_group::late_error(f, file, g, projected, b) is None,
        row_group::is_sound_bucket(f, file, g, projected, b),
        row_group::read_bucket(
            image::bucket_types(f.schema, b),
            row_group::wanted(f.schema, projected, b),
            row_group::open_bucket(f, file, g, projected, b)->Ok_0,
            d.num_rows,
        ) == Ok::<Seq<Option<Seq<CellView>>>, Error>(
            expected(row_group::wanted(f.schema, projected, b), d.buckets[b]),
        ),
{
    reveal(row_group::open_bucket);
    reveal(row_group::is_sound_bucket);
    let dts = image::bucket_types(f.schema, b);
    let rows = d.buckets[b];
    let want = row_group::wanted(f.schema, projected, b);
    let parts = image::slots(set, dts, rows);
    let offset = g.offsets[b] as int;
    assert forall|i: int| 0 <= i < parts.len() implies (#[trigger] parts[i]).len() <= u32::MAX by {
        assert(image::faithful_slot(set, dts[i], rows[i]));
    }
    lemma_directory_round_trip(file, offset, parts);
    assert(row_group::sizes_at(f, file, g, b) == part_sizes(parts));
    let none = Seq::<Option<PageView>>::empty();
    lemma_pages(set, dts, rows, want, d.num_rows, 0, none);
    let pages = row_group::pages_from(dts, want, parts, d.num_rows, 0, none)->Ok_0;
    assert(expected(want, rows).take(0) =~= Seq::<Option<Seq<CellView>>>::empty());
    lemma_page_columns(dts, rows, want, pages, d.num_rows, 0, Seq::empty());
    assert forall|k: int| 0 <= k < want.len() && want[k] implies row_group::is_sound_slot(
        #[trigger] parts[k],
    ) by {
        assert(image::faithful_slot(set, dts[k], rows[k]));
        assert(rows[k].len() == d.num_rows && round_trip::exact_column(dts[k], rows[k]));
        lemma_slot_round_trip(set, dts[k], rows[k]);
    }
}

/// The batch of some columns in a given order.
pub open spec fn batch_of(
    s: SchemaView,
    cols: Seq<Seq<CellView>>,
    order: Seq<usize>,
    num_rows: nat,
) -> BatchView {
    BatchView {
        fields: Seq::new(order.len(), |i: int| s.columns[order[i] as int].field),
        columns: Seq::new(order.len(), |i: int| cols[order[i] as int]),
        num_rows,
    }
}

/// Columns of a schema that are all projected.
pub open spec fn is_projected(order: Seq<usize>, projected: Seq<bool>) -> bool {
    forall|i: int|
        0 <= i < order.len() ==> #[trigger] order[i] < projected.len()
            && projected[order[i] as int]
}

/// Columns that are all found are all kept.
pub proof fn lemma_all_kept(order: Seq<usize>, found: Seq<Option<Seq<CellView>>>, n: nat)
    requires
        n <= order.len(),
        forall|i: int| 0 <= i < order.len() ==> found[(#[trigger] order[i]) as int] is Some,
    ensures
        row_group::kept(order, found, n) == order.take(n as int),
    decreases n,
{
    if n > 0 {
        lemma_all_kept(order, found, (n - 1) as nat);
        assert(found[order[n - 1] as int] is Some);
        assert(order.take(n as int) =~= order.take(n - 1).push(order[n - 1]));
    } else {
        assert(order.take(0) =~= Seq::<usize>::empty());
    }
}

/// The projected columns of a row group that stands in the file read as the cells that
/// were written.
pub proof fn lemma_group_round_trip(
    f: FileView,
    set: Settings,
    file: Seq<u8>,
    g: GroupView,
    d: GroupData,
    cols: Seq<Seq<CellView>>,
    projected: Seq<bool>,
    order: Seq<usize>,
)
    requires
        f.compression == set.compression,
        usable(set),
        u32::MAX <= isize::MAX,
        f.schema.writable(),
        image::placed(file, set, f.schema, g, d),
        layout::compact(g),
        records(f.schema, d, cols),
        lossless(f.schema, cols),
        d.num_rows > 0,
        projected.len() == f.schema.columns.len(),
        is_projected(order, projected),
    ensures
        row_group::open_buckets(f, file, g, projected) is Ok,
        row_group::is_sound_group(f, file, g, projected),
        row_group::read_group(
            f.schema,
            projected,
            order,
            row_group::open_buckets(f, file, g, projected)->Ok_0,
            d.num_rows,
        ) == Ok::<BatchView, Error>(batch_of(f.schema, cols, order, d.num_rows)),
{
    let s = f.schema;
    let n = s.num_buckets;
    let layout_errors = Seq::new(n, |b: int| row_group::layout_error(f, g, projected, b));
    let early_errors = Seq::new(n, |b: int| row_group::early_error(f, file, g, projected, b));
    let late_errors = Seq::new(n, |b: int| row_group::late_error(f, file, g, projected, b));
    assert forall|b: int| 0 <= b < n implies #[trigger] layout_errors[b] is None by {
        lemma_bucket_opens(f, set, file, g, d, cols, projected, b);
    }
    assert forall|b: int| 0 <= b < n implies #[trigger] early_errors[b] is None by {
        lemma_bucket_opens(f, set, file, g, d, cols, projected, b);
    }
    assert forall|b: int| 0 <= b < n implies #[trigger] late_errors[b] is None by {
        lemma_bucket_opens(f, set, file, g, d, cols, projected, b);
    }
    assert forall|b: int| 0 <= b < n implies #[trigger] row_group::is_sound_bucket(
        f,
        file,
        g,
        projected,
        b,
    ) by {
        lemma_bucket_opens(f, set, file, g, d, cols, projected, b);
    }
    row_group::lemma_no_error(layout_errors);
    row_group::lemma_no_error(early_errors);
    row_group::lemma_no_error(late_errors);
    let opened = row_group::open_buckets(f, file, g, projected)->Ok_0;
    assert forall|b: int| 0 <= b < n implies #[trigger] row_group::bucket_found(
        s,
        projected,
        opened,
        d.num_rows,
        b,
    ) == Ok::<Seq<Option<Seq<CellView>>>, Error>(
        expected(row_group::wanted(s, projected, b), d.buckets[b]),
    ) by {
        lemma_bucket_opens(f, set, file, g, d, cols, projected, b);
        assert(opened[b] == row_group::open_bucket(f, file, g, projected, b)->Ok_0);
    }
    lemma_batch(s, d, cols, projected, order, opened);
}

proof fn lemma_batch(
    s: SchemaView,
    d: GroupData,
    cols: Seq<Seq<CellView>>,
    projected: Seq<bool>,
    order: Seq<usize>,
    opened: Seq<BucketView>,
)
    requires
        s.writable(),
        records(s, d, cols),
        lossless(s, cols),
        projected.len() == s.columns.len(),
        is_projected(order, projected),
        forall|b: int|
            0 <= b < s.num_buckets ==> #[trigger] row_group::bucket_found(
                s,
                projected,
                opened,
                d.num_rows,
                b,
            ) == Ok::<Seq<Option<Seq<CellView>>>, Error>(
                expected(row_group::wanted(s, projected, b), d.buckets[b]),
            ),
    ensures
        row_group::read_group(s, projected, order, opened, d.num_rows) == Ok::<BatchView, Error>(
            batch_of(s, cols, order, d.num_rows),
        ),
{
    reveal(row_group::read_error);
    reveal(row_group::columns_found);
    reveal(row_group::assembled);
    let errors = Seq::new(
        s.num_buckets,
        |b: int|
            match row_group::bucket_found(s, projected, opened, d.num_rows, b) {
                Err(e) => Some(e),
                Ok(_) => None,
            },
    );
    row_group::lemma_no_error(errors);
    let found = row_group::columns_found(s, projected, opened, d.num_rows);
    assert forall|c: int| 0 <= c < s.columns.len() && projected[c] implies found[c] == Some(
        cols[c],
    ) by {
        lemma_column_is_found(s, d, cols, projected, opened, c);
    }
    assert forall|i: int| 0 <= i < order.len() implies found[(#[trigger] order[i]) as int]
        is Some by {
        assert(projected[order[i] as int]);
    }
    lemma_all_kept(order, found, order.len());
    assert(order.take(order.len() as int) =~= order);
    let goal = batch_of(s, cols, order, d.num_rows);
    let columns = Seq::new(order.len(), |i: int| found[order[i] as int]->0);
    assert(columns =~= goal.columns) by {
        assert forall|i: int| 0 <= i < order.len() implies columns[i] == goal.columns[i] by {
            assert(projected[order[i] as int]);
        }
    }
    let nullable = Seq::new(order.len(), |i: int| goal.fields[i].nullable);
    if batch::misplaced_null(nullable, columns) {
        let i = choose|i: int|
            0 <= i < nullable.len() && 0 <= i < columns.len() && !(#[trigger] nullable[i])
                && batch::has_null(columns[i]);
        let c = order[i] as int;
        assert(projected[order[i] as int]);
        assert(!writer::schema_nullable(s)[c]);
        assert(batch::has_null(cols[c]));
    }
}

proof fn lemma_column_is_found(
    s: SchemaView,
    d: GroupData,
    cols: Seq<Seq<CellView>>,
    projected: Seq<bool>,
    opened: Seq<BucketView>,
    c: int,
)
    requires
        s.writable(),
        records(s, d, cols),
        projected.len() == s.columns.len(),
        0 <= c < s.columns.len(),
        projected[c],
        forall|b: int|
            0 <= b < s.num_buckets ==> #[trigger] row_group::bucket_found(
                s,
                projected,
                opened,
                d.num_rows,
                b,
            ) == Ok::<Seq<Option<Seq<CellView>>>, Error>(
                expected(row_group::wanted(s, projected, b), d.buckets[b]),
            ),
    ensures
        row_group::column_found(s, projected, opened, d.num_rows, c) == Some(cols[c]),
{
    let b = s.columns[c].bucket_id as int;
    assert(schema::writable_column(s.columns[c], s.num_buckets));
    let members = image::bucket_members(s, b);
    schema::lemma_members(s.columns, b as nat, s.columns.len());
    assert(members.contains(c as usize));
    let k = members.index_of(c as usize);
    assert(members[k] == c as usize);
    assert(d.buckets[b] == image::bucket_part(s, cols, b));
    assert(d.buckets[b][k] == cols[c]);
    assert(row_group::wanted(s, projected, b)[k]);
    assert(row_group::bucket_found(s, projected, opened, d.num_rows, b)->Ok_0 == expected(
        row_group::wanted(s, projected, b),
        d.buckets[b],
    ));
}

/// Statistics of columns whose values are all looked at.
pub open spec fn all_watched(s: SchemaView, d: GroupData, cols: Seq<Seq<CellView>>) -> bool {
    &&& d.stats.len() <= u32::MAX
    &&& forall|i: int|
        0 <= i < d.stats.len() ==> (#[trigger] d.stats[i]).column_index < s.columns.len()
            && stats::is_watched(
            s.columns[d.stats[i].column_index as int].field.data_type,
            cols[d.stats[i].column_index as int],
        )
}

proof fn lemma_group_exact(
    set: Settings,
    s: SchemaView,
    body: Seq<u8>,
    g: GroupView,
    d: GroupData,
    cols: Seq<Seq<CellView>>,
)
    requires
        usable(set),
        s.writable(),
        image::placed(body, set, s, g, d),
        layout::compact(g),
        records(s, d, cols),
        lossless(s, cols),
        all_watched(s, d, cols),
    ensures
        layout::exact_group(
            g,
            body.len() as int,
            s.num_buckets,
            schema::column_types(s.columns),
        ),
{
    let dts = schema::column_types(s.columns);
    assert forall|b: int| 0 <= b < g.layouts.len() implies (#[trigger] g.layouts[b]).definite() && (
    g.layouts[b] == LayoutView::Empty ==> g.offsets[b] == 0) && g.offsets[b]
        + g.layouts[b].sizes().0 <= body.len() by {
        let bts = image::bucket_types(s, b);
        let rows = d.buckets[b];
        lemma_bucket_exact(s, d, cols, b);
        assert(g.layouts[b] == image::bucket_layout(set, bts, rows));
        assert(image::images(set, s, d)[b] == image::bucket_image(set, bts, rows));
        assert(if g.layouts[b] == LayoutView::Empty {
            g.offsets[b] == 0
        } else {
            &&& bytes::has_at(body, g.offsets[b] as int, image::images(set, s, d)[b])
            &&& image::faithful_bucket(set, bts, rows)
        });
        if g.layouts[b] != LayoutView::Empty {
            lemma_bucket_bytes_nonempty(bts, rows, set.limits);
            if image::is_paged(set, bts, rows) {
                let parts = image::slots(set, bts, rows);
                lemma_directory_size(parts);
            }
        }
    }
    assert(layout::within_limit(g.offsets, g.layouts, body.len() as int));
    assert forall|i: int| 0 <= i < g.stats.len() implies stats::complete_stat(
        #[trigger] g.stats[i],
        dts,
        g.num_rows,
    ) by {
        let t = d.stats[i];
        let c = t.column_index as int;
        assert(cols[c].len() == d.num_rows);
        assert(round_trip::exact_column(s.columns[c].field.data_type, cols[c]));
        assert(dts[c] == s.columns[c].field.data_type);
        stats::lemma_column_stats_complete(dts, t.column_index, cols[c]);
    }
}

proof fn lemma_directory_size(parts: Seq<Seq<u8>>)
    ensures
        encoding::flat(image::size_parts(parts)).len() == 4 * parts.len(),
{
    let fields = image::size_parts(parts);
    assert forall|i: int| 0 <= i < fields.len() implies (#[trigger] fields[i]).len() == 4 by {
        bytes::lemma_be_len(parts[i].len(), 4);
    }
    round_trip::lemma_flat_fixed(fields, 4);
}

/// Opening a file gives back its columns and its row groups.
pub proof fn lemma_metadata_round_trip(
    set: Settings,
    s: SchemaView,
    body: Seq<u8>,
    groups: Seq<GroupView>,
)
    requires
        usable(set),
        u32::MAX <= isize::MAX,
        s.writable(),
        image::closable(set, s, groups, body.len() as int),
        forall|i: int|
            0 <= i < groups.len() ==> layout::exact_group(
                #[trigger] groups[i],
                body.len() as int,
                s.num_buckets,
                schema::column_types(s.columns),
            ),
    ensures
        reader::parse_file(
            body + image::tail_bytes(set, s, groups, body.len() as int),
        ) == Ok::<FileView, Error>(
            FileView { schema: s, groups, compression: set.compression },
        ),
        reader::is_sound_file(body + image::tail_bytes(set, s, groups, body.len() as int)),
{
    let base = body.len() as int;
    let raw = schema::schema_bytes(s);
    let size = bytes::be(raw.len(), 4);
    let packed = blocks::packed(set.compression, set.level, raw);
    let block = image::schema_block(set, s);
    let index = layout::index_bytes(groups, groups.len());
    let f = image::footer_of(set, s, groups, base);
    let footer = layout::footer_bytes(f);
    let file = body + image::tail_bytes(set, s, groups, base);
    let n = file.len() as int;
    bytes::lemma_be_len(raw.len(), 4);
    bytes::lemma_bases();
    bytes::lemma_be_round_trip(raw.len(), 4);
    assert(f.schema_offset == base);
    assert(f.index_offset == base + block.len());
    layout::lemma_footer_len(f);
    layout::lemma_footer_round_trip(f, n);
    assert(file.skip(n - 32) =~= footer);
    let meta = file.subrange(base, n - 32);
    assert(meta =~= block + index);
    let split = f.index_offset - f.schema_offset;
    assert(meta.subrange(0, 4) =~= size);
    assert(meta.subrange(4, split) =~= packed);
    assert(meta.skip(split) =~= index);
    blocks::lemma_unpacked(set.compression, set.level, raw);
    schema::lemma_schema_round_trip(s);
    layout::lemma_index_round_trip(
        groups,
        base,
        s.num_buckets,
        schema::column_types(s.columns),
    );
}

/// Opening a file that was closed gives back its columns and its row groups.
pub proof fn lemma_closed_file(
    set: Settings,
    s: SchemaView,
    body: Seq<u8>,
    groups: Seq<GroupView>,
    history: Seq<GroupData>,
    columns: Seq<Seq<Seq<CellView>>>,
)
    requires
        usable(set),
        u32::MAX <= isize::MAX,
        s.writable(),
        image::all_placed(body, set, s, groups, history),
        image::closable(set, s, groups, body.len() as int),
        columns.len() == history.len(),
        forall|j: int|
            0 <= j < history.len() ==> records(s, #[trigger] history[j], columns[j]) && lossless(
                s,
                columns[j],
            ) && all_watched(s, history[j], columns[j]) && history[j].num_rows > 0,
    ensures
        reader::parse_file(
            body + image::tail_bytes(set, s, groups, body.len() as int),
        ) == Ok::<FileView, Error>(
            (FileView { schema: s, groups, compression: set.compression }),
        ),
        reader::is_sound_file(body + image::tail_bytes(set, s, groups, body.len() as int)),
{
    assert forall|j: int| 0 <= j < groups.len() implies layout::exact_group(
        #[trigger] groups[j],
        body.len() as int,
        s.num_buckets,
        schema::column_types(s.columns),
    ) by {
        assert(image::placed(body, set, s, groups[j], history[j]));
        assert(records(s, history[j], columns[j]));
        lemma_group_exact(set, s, body, groups[j], history[j], columns[j]);
    }
    lemma_metadata_round_trip(set, s, body, groups);
}

/// What a closed file is read back as: opening it gives its columns and its row groups,
/// and any projected columns of any row group read as the cells that were
/// written.
pub proof fn lemma_file_round_trip(
    set: Settings,
    s: SchemaView,
    body: Seq<u8>,
    groups: Seq<GroupView>,
    history: Seq<GroupData>,
    columns: Seq<Seq<Seq<CellView>>>,
    i: int,
    projected: Seq<bool>,
    order: Seq<usize>,
)
    requires
        usable(set),
        u32::MAX <= isize::MAX,
        s.writable(),
        image::all_placed(body, set, s, groups, history),
        image::closable(set, s, groups, body.len() as int),
        columns.len() == history.len(),
        forall|j: int|
            0 <= j < history.len() ==> records(s, #[trigger] history[j], columns[j]) && lossless(
                s,
                columns[j],
            ) && all_watched(s, history[j], columns[j]) && history[j].num_rows > 0,
        0 <= i < groups.len(),
        projected.len() == s.columns.len(),
        is_projected(order, projected),
    ensures
        ({
            let file = body + image::tail_bytes(set, s, groups, body.len() as int);
            let f = FileView { schema: s, groups, compression: set.compression };
            let opened = row_group::open_buckets(f, file, groups[i], projected);
            &&& reader::parse_file(file) == Ok::<FileView, Error>(f)
            &&& reader::is_sound_file(file)
            &&& opened is Ok
            &&& row_group::is_sound_group(f, file, groups[i], projected)
            &&& row_group::read_group(
                s,
                projected,
                order,
                opened->Ok_0,
                groups[i].num_rows,
            ) == Ok::<BatchView, Error>(
                batch_of(s, columns[i], order, history[i].num_rows),
            )
        }),
{
    let file = body + image::tail_bytes(set, s, groups, body.len() as int);
    let f = FileView { schema: s, groups, compression: set.compression };
    lemma_closed_file(set, s, body, groups, history, columns);
    assert(body.is_prefix_of(file));
    image::lemma_placed_prefix(body, file, set, s, groups, history);
    assert(image::placed(file, set, s, groups[i], history[i]));
    assert(records(s, history[i], columns[i]));
    lemma_group_round_trip(
        f,
        set,
        file,
        groups[i],
        history[i],
        columns[i],
        projected,
        order,
    );
}

/// The columns of a list are projected where the list says which are.
pub proof fn lemma_listed(order: Seq<usize>, n: nat)
    requires
        forall|i: int| 0 <= i < order.len() ==> #[trigger] order[i] < n,
    ensures
        is_projected(order, reader::flags(order, n)),
{
    assert forall|i: int| 0 <= i < order.len() implies #[trigger] order[i] < n && reader::flags(
        order,
        n,
    )[order[i] as int] by {
        assert(order.contains(order[i]));
    }
}

/// The columns that are flagged are projected.
pub proof fn lemma_flagged(projected: Seq<bool>, n: nat)
    requires
        n <= projected.len() <= usize::MAX,
    ensures
        is_projected(reader::flagged(projected, n), projected),
    decreases n,
{
    if n > 0 {
        lemma_flagged(projected, (n - 1) as nat);
        let before = reader::flagged(projected, (n - 1) as nat);
        let now = reader::flagged(projected, n);
        assert forall|i: int| 0 <= i < now.len() implies #[trigger] now[i] < projected.len()
            && projected[now[i] as int] by {
            if i < before.len() {
                assert(now[i] == before[i]);
            }
        }
    }
}

/// A row group without rows holds columns without cells.
pub proof fn lemma_records_none(s: SchemaView, watched: Seq<nat>)
    requires
        s.columns.len() <= u32::MAX,
        forall|i: int| 0 <= i < watched.len() ==> #[trigger] watched[i] < s.columns.len(),
    ensures
        records(
            s,
            image::no_data(s, watched),
            Seq::new(s.columns.len(), |c: int| Seq::<CellView>::empty()),
        ),
{
    let d = image::no_data(s, watched);
    let cols = Seq::new(s.columns.len(), |c: int| Seq::<CellView>::empty());
    assert forall|b: int| 0 <= b < s.num_buckets implies #[trigger] d.buckets[b]
        == image::bucket_part(s, cols, b) by {
        schema::lemma_members(s.columns, b as nat, s.columns.len());
        assert(d.buckets[b] =~= image::bucket_part(s, cols, b));
    }
    assert forall|i: int| 0 <= i < d.stats.len() implies {
        let t = #[trigger] d.stats[i];
        &&& t.column_index < s.columns.len()
        &&& t == stats::with_cells(
            s.columns[t.column_index as int].field.data_type,
            stats::no_stats(t.column_index),
            cols[t.column_index as int],
        )
    } by {
        assert(watched[i] < s.columns.len());
    }
}

/// A row group that takes in more rows holds them behind those it had.
pub proof fn lemma_records_more(
    s: SchemaView,
    d: GroupData,
    cols: Seq<Seq<CellView>>,
    more: Seq<Seq<CellView>>,
    num_rows: nat,
)
    requires
        s.columns.len() <= u32::MAX,
        records(s, d, cols),
        more.len() == s.columns.len(),
        forall|c: int| 0 <= c < more.len() ==> (#[trigger] more[c]).len() == num_rows,
    ensures
        records(s, image::with_rows(s, d, more, num_rows), image::appended(cols, more)),
{
    let e = image::with_rows(s, d, more, num_rows);
    let all = image::appended(cols, more);
    assert forall|c: int| 0 <= c < all.len() implies (#[trigger] all[c]).len() == e.num_rows by {
        assert(cols[c].len() == d.num_rows && more[c].len() == num_rows);
    }
    assert forall|b: int| 0 <= b < s.num_buckets implies #[trigger] e.buckets[b]
        == image::bucket_part(s, all, b) by {
        schema::lemma_members(s.columns, b as nat, s.columns.len());
        assert(d.buckets[b] == image::bucket_part(s, cols, b));
        let members = image::bucket_members(s, b);
        assert forall|k: int| 0 <= k < members.len() implies e.buckets[b][k] == image::bucket_part(
            s,
            all,
            b,
        )[k] by {
            assert(members[k] < s.columns.len());
        }
        assert(e.buckets[b] =~= image::bucket_part(s, all, b));
    }
    assert forall|i: int| 0 <= i < e.stats.len() implies {
        let t = #[trigger] e.stats[i];
        &&& t.column_index < s.columns.len()
        &&& t == stats::with_cells(
            s.columns[t.column_index as int].field.data_type,
            stats::no_stats(t.column_index),
            all[t.column_index as int],
        )
    } by {
        let t = d.stats[i];
        let c = t.column_index as int;
        let dt = s.columns[c].field.data_type;
        stats::lemma_with_cells_concat(dt, stats::no_stats(t.column_index), cols[c], more[c]);
        lemma_with_cells_index(dt, t, more[c]);
    }
}

/// Statistics that take in more cells stay those of their column.
pub proof fn lemma_with_cells_index(dt: DataType, t: ColumnStatsView, rows: Seq<CellView>)
    ensures
        stats::with_cells(dt, t, rows).column_index == t.column_index,
    decreases rows.len(),
{
    if rows.len() > 0 {
        lemma_with_cells_index(dt, t, rows.drop_last());
    }
}

} // verus!
