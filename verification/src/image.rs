//! What a file holds: the bytes of its row groups as a function of their cells.

use crate::bucket_writer;
use crate::bytes;
use crate::blocks;
use crate::encoding;
use crate::encoding::Limits;
use crate::error::Error;
use crate::format::{COMPRESSION_NONE, COMPRESSION_ZSTD, ENCODING_ALL_NULL};
use crate::layout;
use crate::layout::{Footer, GroupView, LayoutView};
use crate::schema;
use crate::schema::SchemaView;
use crate::stats;
use crate::stats::ColumnStatsView;
use crate::types;
use crate::types::DataType;
use crate::values::CellView;
use crate::varint;
use vstd::prelude::*;

verus! {

/// How a writer stores buckets.
pub struct Settings {
    pub compression: u8,
    pub level: int,
    pub limits: Limits,
    pub threshold: nat,
}

/// The rows of a row group: for each bucket the cells of its columns, and the
/// statistics.
#[verifier::ext_equal]
pub struct GroupData {
    pub num_rows: nat,
    pub buckets: Seq<Seq<Seq<CellView>>>,
    pub stats: Seq<ColumnStatsView>,
}

/// The columns of bucket `b`.
pub open spec fn bucket_members(s: SchemaView, b: int) -> Seq<usize> {
    schema::members(s.columns, b as nat, s.columns.len())
}

/// The types of the columns of bucket `b`.
pub open spec fn bucket_types(s: SchemaView, b: int) -> Seq<DataType> {
    Seq::new(
        bucket_members(s, b).len(),
        |k: int| s.columns[bucket_members(s, b)[k] as int].field.data_type,
    )
}

/// What bucket `b` has of all columns.
pub open spec fn bucket_part(s: SchemaView, cols: Seq<Seq<CellView>>, b: int) -> Seq<
    Seq<CellView>,
> {
    Seq::new(bucket_members(s, b).len(), |k: int| cols[bucket_members(s, b)[k] as int])
}

/// What a column's block holds in a paged bucket: its encoding, whether it has
/// nulls, its constant and its page.
pub open spec fn page_content(dt: DataType, rows: Seq<CellView>, limits: Limits) -> Seq<u8> {
    seq![
        encoding::kind(dt, rows, limits),
        if encoding::has_nulls(dt, rows) {
            1u8
        } else {
            0u8
        },
    ] + encoding::const_part(dt, rows, limits) + (match encoding::page(dt, rows, limits) {
        Some(p) => p,
        None => Seq::empty(),
    })
}

/// A column in a paged bucket: the size of what its block holds, and the block.
/// Nothing for a column without values.
pub open spec fn slot(set: Settings, dt: DataType, rows: Seq<CellView>) -> Seq<u8> {
    let content = page_content(dt, rows, set.limits);
    if encoding::kind(dt, rows, set.limits) == ENCODING_ALL_NULL {
        Seq::empty()
    } else {
        varint::leb(content.len()) + blocks::zstd_frame(content, set.level)
    }
}

/// The columns of a paged bucket.
pub open spec fn slots(set: Settings, dts: Seq<DataType>, rows: Seq<Seq<CellView>>) -> Seq<
    Seq<u8>,
> {
    Seq::new(dts.len(), |i: int| slot(set, dts[i], rows[i]))
}

/// The sizes of the slots.
pub open spec fn size_parts(parts: Seq<Seq<u8>>) -> Seq<Seq<u8>> {
    Seq::new(parts.len(), |i: int| bytes::le4(parts[i].len()))
}

/// A paged bucket: the sizes of its slots, and the slots.
pub open spec fn paged_bytes(set: Settings, dts: Seq<DataType>, rows: Seq<Seq<CellView>>) -> Seq<
    u8,
> {
    encoding::flat(size_parts(slots(set, dts, rows))) + encoding::flat(slots(set, dts, rows))
}

/// The pages of the columns of a bucket.
pub open spec fn pages(
    dts: Seq<DataType>,
    rows: Seq<Seq<CellView>>,
    limits: Limits,
) -> Seq<Option<Seq<u8>>> {
    Seq::new(dts.len(), |i: int| encoding::page(dts[i], rows[i], limits))
}

/// How many pages there are.
pub open spec fn page_count(ps: Seq<Option<Seq<u8>>>) -> nat
    decreases ps.len(),
{
    if ps.len() == 0 {
        0
    } else if ps.last() is Some {
        page_count(ps.drop_last()) + 1
    } else {
        page_count(ps.drop_last())
    }
}

/// The size of all pages.
pub open spec fn page_total(ps: Seq<Option<Seq<u8>>>) -> nat
    decreases ps.len(),
{
    if ps.len() == 0 {
        0
    } else if ps.last() is Some {
        page_total(ps.drop_last()) + ps.last()->0.len()
    } else {
        page_total(ps.drop_last())
    }
}

/// Whether a bucket is stored column by column: it is compressed and large, and so
/// is the average page.
pub open spec fn is_paged(set: Settings, dts: Seq<DataType>, rows: Seq<Seq<CellView>>) -> bool {
    let ps = pages(dts, rows, set.limits);
    &&& set.compression == COMPRESSION_ZSTD
    &&& encoding::bucket_bytes(dts, rows, set.limits).len() >= set.threshold
    &&& page_count(ps) > 0
    &&& page_total(ps) / page_count(ps) >= set.threshold
}

/// Whether a bucket has anything to store.
pub open spec fn is_stored(rows: Seq<Seq<CellView>>) -> bool {
    rows.len() > 0 && rows[0].len() > 0
}

/// The bytes of a bucket in the file.
pub open spec fn bucket_image(set: Settings, dts: Seq<DataType>, rows: Seq<Seq<CellView>>) -> Seq<
    u8,
> {
    if !is_stored(rows) {
        Seq::empty()
    } else if is_paged(set, dts, rows) {
        paged_bytes(set, dts, rows)
    } else {
        blocks::packed(
            set.compression,
            set.level,
            encoding::bucket_bytes(dts, rows, set.limits),
        )
    }
}

/// The size of what a bucket stands for: that of its pages where it is stored
/// column by column.
pub open spec fn raw_size(set: Settings, dts: Seq<DataType>, rows: Seq<Seq<CellView>>) -> nat {
    if !is_stored(rows) {
        0
    } else if is_paged(set, dts, rows) {
        page_total(pages(dts, rows, set.limits))
    } else {
        encoding::bucket_bytes(dts, rows, set.limits).len()
    }
}

/// How a bucket is stored.
pub open spec fn bucket_layout(
    set: Settings,
    dts: Seq<DataType>,
    rows: Seq<Seq<CellView>>,
) -> LayoutView {
    if !is_stored(rows) {
        LayoutView::Empty
    } else if is_paged(set, dts, rows) {
        LayoutView::Paged { total_size: paged_bytes(set, dts, rows).len() }
    } else {
        LayoutView::Monolithic {
            compressed_size: bucket_image(set, dts, rows).len(),
            uncompressed_size: encoding::bucket_bytes(dts, rows, set.limits).len(),
        }
    }
}

/// A slot whose sizes fit in 32 bits and whose block decompresses to what it
/// stands for.
pub open spec fn faithful_slot(set: Settings, dt: DataType, rows: Seq<CellView>) -> bool {
    let content = page_content(dt, rows, set.limits);
    encoding::kind(dt, rows, set.limits) != ENCODING_ALL_NULL ==> {
        &&& content.len() <= u32::MAX
        &&& slot(set, dt, rows).len() <= u32::MAX
        &&& blocks::faithful(
            COMPRESSION_ZSTD,
            blocks::zstd_frame(content, set.level),
            content,
        )
    }
}

/// A bucket whose blocks decompress to what they stand for.
pub open spec fn faithful_bucket(
    set: Settings,
    dts: Seq<DataType>,
    rows: Seq<Seq<CellView>>,
) -> bool {
    is_stored(rows) ==> if is_paged(set, dts, rows) {
        forall|i: int| 0 <= i < dts.len() ==> faithful_slot(set, #[trigger] dts[i], rows[i])
    } else {
        &&& set.compression == COMPRESSION_NONE || set.compression == COMPRESSION_ZSTD
        &&& blocks::faithful(
            set.compression,
            bucket_image(set, dts, rows),
            encoding::bucket_bytes(dts, rows, set.limits),
        )
    }
}

/// Whether a bucket has a page or a slot whose size does not fit in 32 bits.
pub open spec fn oversized_bucket(
    set: Settings,
    dts: Seq<DataType>,
    rows: Seq<Seq<CellView>>,
) -> bool {
    is_stored(rows) && is_paged(set, dts, rows) && exists|i: int|
        0 <= i < dts.len() && (page_content(#[trigger] dts[i], rows[i], set.limits).len()
            > u32::MAX || slot(set, dts[i], rows[i]).len() > u32::MAX)
}

/// The bytes of the buckets of a row group.
pub open spec fn images(set: Settings, s: SchemaView, d: GroupData) -> Seq<Seq<u8>> {
    Seq::new(s.num_buckets, |b: int| bucket_image(set, bucket_types(s, b), d.buckets[b]))
}

/// How the buckets of a row group are stored.
pub open spec fn layouts(set: Settings, s: SchemaView, d: GroupData) -> Seq<LayoutView> {
    Seq::new(s.num_buckets, |b: int| bucket_layout(set, bucket_types(s, b), d.buckets[b]))
}

/// Where the buckets of a row group start, the first of them at `base`.
pub open spec fn offsets(set: Settings, s: SchemaView, d: GroupData, base: int) -> Seq<u64> {
    Seq::new(
        s.num_buckets,
        |b: int| if layouts(set, s, d)[b] == LayoutView::Empty {
            0u64
        } else {
            (base + encoding::flat(images(set, s, d).take(b)).len()) as u64
        },
    )
}

/// The index's view of a row group whose buckets start at `base`.
pub open spec fn group_view(set: Settings, s: SchemaView, d: GroupData, base: int) -> GroupView {
    GroupView {
        num_rows: d.num_rows,
        offsets: offsets(set, s, d, base),
        layouts: layouts(set, s, d),
        stats: d.stats,
    }
}

/// Whether the buckets of a row group stand in the file where the index says.
pub open spec fn placed(
    file: Seq<u8>,
    set: Settings,
    s: SchemaView,
    g: GroupView,
    d: GroupData,
) -> bool {
    &&& g.num_rows == d.num_rows
    &&& g.stats == d.stats
    &&& g.layouts == layouts(set, s, d)
    &&& g.offsets.len() == s.num_buckets
    &&& forall|b: int|
        0 <= b < s.num_buckets ==> if g.layouts[b] == LayoutView::Empty {
            #[trigger] g.offsets[b] == 0
        } else {
            &&& bytes::has_at(file, g.offsets[b] as int, images(set, s, d)[b])
            &&& faithful_bucket(set, bucket_types(s, b), d.buckets[b])
        }
}

/// Whether all row groups stand in the file where the index says.
pub open spec fn all_placed(
    file: Seq<u8>,
    set: Settings,
    s: SchemaView,
    groups: Seq<GroupView>,
    history: Seq<GroupData>,
) -> bool {
    &&& groups.len() == history.len()
    &&& forall|i: int|
        0 <= i < groups.len() ==> placed(file, set, s, #[trigger] groups[i], history[i])
}

/// A row group without rows.
pub open spec fn no_data(s: SchemaView, watched: Seq<nat>) -> GroupData {
    GroupData {
        num_rows: 0,
        buckets: Seq::new(
            s.num_buckets,
            |b: int| Seq::new(bucket_members(s, b).len(), |k: int| Seq::<CellView>::empty()),
        ),
        stats: Seq::new(watched.len(), |i: int| stats::no_stats(watched[i])),
    }
}

/// The columns of a bucket with more cells behind each.
pub open spec fn appended(rows: Seq<Seq<CellView>>, more: Seq<Seq<CellView>>) -> Seq<
    Seq<CellView>,
> {
    Seq::new(rows.len(), |k: int| rows[k] + more[k])
}

/// A row group whose first `n` buckets have more cells behind each column.
pub open spec fn with_buckets(
    s: SchemaView,
    d: GroupData,
    cols: Seq<Seq<CellView>>,
    n: int,
) -> GroupData {
    GroupData {
        buckets: Seq::new(
            s.num_buckets,
            |b: int| if b < n {
                appended(d.buckets[b], bucket_part(s, cols, b))
            } else {
                d.buckets[b]
            },
        ),
        ..d
    }
}

/// A row group with more rows, given by the cells of all columns.
pub open spec fn with_rows(
    s: SchemaView,
    d: GroupData,
    cols: Seq<Seq<CellView>>,
    num_rows: nat,
) -> GroupData {
    GroupData {
        num_rows: d.num_rows + num_rows,
        buckets: with_buckets(s, d, cols, s.num_buckets as int).buckets,
        stats: Seq::new(
            d.stats.len(),
            |i: int|
                stats::with_cells(
                    s.columns[d.stats[i].column_index as int].field.data_type,
                    d.stats[i],
                    cols[d.stats[i].column_index as int],
                ),
        ),
    }
}

/// What bucket `b` has of the types that all columns are declared with.
pub open spec fn bucket_declared(s: SchemaView, declared: Seq<DataType>, b: int) -> Seq<DataType> {
    Seq::new(bucket_members(s, b).len(), |k: int| declared[bucket_members(s, b)[k] as int])
}

/// How many of the first `n` columns come before one that is declared with a type of
/// other cells.
pub open spec fn agreeing(dts: Seq<DataType>, declared: Seq<DataType>, n: nat) -> nat
    decreases n,
{
    if n == 0 {
        0
    } else {
        let before = agreeing(dts, declared, (n - 1) as nat);
        if before == n - 1 && types::same_cells(dts[n - 1], declared[n - 1]) {
            n
        } else {
            before
        }
    }
}

/// The first error among the columns of a bucket. The types that they are declared
/// with count only where there are rows.
pub open spec fn bucket_error(
    dts: Seq<DataType>,
    declared: Seq<DataType>,
    part: Seq<Seq<CellView>>,
    num_rows: nat,
) -> Option<Error> {
    let k = if num_rows == 0 {
        dts.len()
    } else {
        agreeing(dts, declared, dts.len())
    };
    match bucket_writer::columns_error(dts, part.take(k as int)) {
        Some(e) => Some(e),
        None => if k < dts.len() {
            Some(Error::ColumnTypeMismatch)
        } else {
            None
        },
    }
}

/// The first error among the first `n` buckets of the columns.
pub open spec fn buckets_error(
    s: SchemaView,
    declared: Seq<DataType>,
    cols: Seq<Seq<CellView>>,
    num_rows: nat,
    n: nat,
) -> Option<Error>
    decreases n,
{
    if n == 0 {
        None
    } else {
        match buckets_error(s, declared, cols, num_rows, (n - 1) as nat) {
            Some(e) => Some(e),
            None => bucket_error(
                bucket_types(s, n - 1),
                bucket_declared(s, declared, n - 1),
                bucket_part(s, cols, n - 1),
                num_rows,
            ),
        }
    }
}

/// The bytes that the columns of the first `n` buckets add to a row group, as
/// far as they are estimated.
pub open spec fn buckets_size(
    s: SchemaView,
    cols: Seq<Seq<CellView>>,
    num_rows: nat,
    n: nat,
) -> nat
    decreases n,
{
    if n == 0 {
        0
    } else {
        let before = buckets_size(s, cols, num_rows, (n - 1) as nat);
        let dts = bucket_types(s, n - 1);
        if dts.len() == 0 || num_rows == 0 {
            before
        } else {
            before + bucket_writer::capped(
                (bucket_writer::stored_size(dts, bucket_part(s, cols, n - 1)) + num_rows
                    * crate::bits::byte_count(dts.len() as int)) as int,
            ) as nat
        }
    }
}

/// The size of what the first `n` buckets of a row group stand for.
pub open spec fn raw_total(set: Settings, s: SchemaView, d: GroupData, n: nat) -> nat
    decreases n,
{
    if n == 0 {
        0
    } else {
        raw_total(set, s, d, (n - 1) as nat) + raw_size(
            set,
            bucket_types(s, n - 1),
            d.buckets[n - 1],
        )
    }
}

/// Whether all buckets of a row group decompress to what they stand for.
pub open spec fn faithful_group(set: Settings, s: SchemaView, d: GroupData) -> bool {
    forall|b: int|
        0 <= b < s.num_buckets ==> faithful_bucket(
            set,
            #[trigger] bucket_types(s, b),
            d.buckets[b],
        )
}

/// What stands in a file still stands in it when more is written.
pub proof fn lemma_placed_prefix(
    before: Seq<u8>,
    after: Seq<u8>,
    set: Settings,
    s: SchemaView,
    groups: Seq<GroupView>,
    history: Seq<GroupData>,
)
    requires
        before.is_prefix_of(after),
        all_placed(before, set, s, groups, history),
    ensures
        all_placed(after, set, s, groups, history),
{
    assert forall|i: int| 0 <= i < groups.len() implies placed(
        after,
        set,
        s,
        #[trigger] groups[i],
        history[i],
    ) by {
        let g = groups[i];
        let d = history[i];
        assert(placed(before, set, s, g, d));
        assert forall|b: int| 0 <= b < s.num_buckets implies if g.layouts[b] == LayoutView::Empty {
            #[trigger] g.offsets[b] == 0
        } else {
            &&& bytes::has_at(after, g.offsets[b] as int, images(set, s, d)[b])
            &&& faithful_bucket(set, bucket_types(s, b), d.buckets[b])
        } by {
            if g.layouts[b] != LayoutView::Empty {
                let p = g.offsets[b] as int;
                let t = images(set, s, d)[b];
                assert(bytes::has_at(before, p, t));
                assert(after.subrange(p, p + t.len()) =~= before.subrange(p, p + t.len())) by {
                    assert(after.subrange(0, before.len() as int) =~= before);
                }
            }
        }
    }
}

/// The buckets of a row group stand where they were written.
pub proof fn lemma_placed(before: Seq<u8>, set: Settings, s: SchemaView, d: GroupData)
    requires
        faithful_group(set, s, d),
        before.len() + encoding::flat(images(set, s, d)).len() <= u64::MAX,
    ensures
        placed(
            before + encoding::flat(images(set, s, d)),
            set,
            s,
            group_view(set, s, d, before.len() as int),
            d,
        ),
{
    let parts = images(set, s, d);
    let file = before + encoding::flat(parts);
    let g = group_view(set, s, d, before.len() as int);
    assert forall|b: int| 0 <= b < s.num_buckets implies if g.layouts[b] == LayoutView::Empty {
        #[trigger] g.offsets[b] == 0
    } else {
        &&& bytes::has_at(file, g.offsets[b] as int, parts[b])
        &&& faithful_bucket(set, bucket_types(s, b), d.buckets[b])
    } by {
        encoding::lemma_flat_split(parts, b);
        encoding::lemma_flat_first(parts.skip(b));
        let p = (before + encoding::flat(parts.take(b))).len() as int;
        assert(encoding::flat(parts) == encoding::flat(parts.take(b)) + encoding::flat(
            parts.skip(b),
        ));
        assert(file.subrange(p, p + parts[b].len()) =~= parts[b]);
    }
}

/// The schema block of a file.
pub open spec fn schema_block(set: Settings, s: SchemaView) -> Seq<u8> {
    let raw = schema::schema_bytes(s);
    bytes::be(raw.len(), 4) + blocks::packed(set.compression, set.level, raw)
}

/// The footer of a file whose schema block starts at `base`.
pub open spec fn footer_of(set: Settings, s: SchemaView, groups: Seq<GroupView>, base: int) -> Footer {
    Footer {
        index_offset: (base + schema_block(set, s).len()) as u64,
        schema_offset: base as u64,
        num_buckets: s.num_buckets as u32,
        num_row_groups: groups.len() as u32,
        compression: set.compression,
    }
}

/// The end of a file, behind its buckets: the schema block, the index and the
/// footer.
pub open spec fn tail_bytes(set: Settings, s: SchemaView, groups: Seq<GroupView>, base: int) -> Seq<
    u8,
> {
    schema_block(set, s) + layout::index_bytes(groups, groups.len()) + layout::footer_bytes(
        footer_of(set, s, groups, base),
    )
}

/// What has to hold for a file to be closed: the compression is known, all numbers
/// fit in their fields, and the schema block decompresses to the schema.
pub open spec fn closable(set: Settings, s: SchemaView, groups: Seq<GroupView>, base: int) -> bool {
    let raw = schema::schema_bytes(s);
    &&& set.compression == COMPRESSION_NONE || set.compression == COMPRESSION_ZSTD
    &&& raw.len() <= u32::MAX
    &&& blocks::faithful(
        set.compression,
        blocks::packed(set.compression, set.level, raw),
        raw,
    )
    &&& groups.len() <= u32::MAX
    &&& forall|i: int| 0 <= i < groups.len() ==> layout::compact(#[trigger] groups[i])
    &&& base + schema_block(set, s).len() <= u64::MAX
}

} // verus!
