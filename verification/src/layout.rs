//! The end of a file: how the buckets of each row group are stored, the index of
//! the row groups and the footer.

use crate::bytes;
use crate::error::Error;
use crate::format::{FOOTER_SIZE, MAGIC, VERSION};
use crate::schema;
use crate::schema::ColumnMeta;
use crate::stats;
use crate::stats::{ColumnStats, ColumnStatsView};
use crate::types::DataType;
use crate::varint;
use vstd::prelude::*;

verus! {

/// How a bucket is stored.
#[derive(Debug, Clone, Copy, PartialEq, Eq, Structural)]
pub enum BucketLayout {
    /// Not at all.
    Empty,
    /// All columns in one block.
    Monolithic { compressed_size: usize, uncompressed_size: usize },
    /// A directory, and then one compressed block for each column.
    Paged { total_size: usize },
}

/// The mathematical content of a [`BucketLayout`].
pub enum LayoutView {
    Empty,
    Monolithic { compressed_size: nat, uncompressed_size: nat },
    Paged { total_size: nat },
}

impl View for BucketLayout {
    type V = LayoutView;

    open spec fn view(&self) -> LayoutView {
        match *self {
            BucketLayout::Empty => LayoutView::Empty,
            BucketLayout::Monolithic {
                compressed_size,
                uncompressed_size,
            } => LayoutView::Monolithic {
                compressed_size: compressed_size as nat,
                uncompressed_size: uncompressed_size as nat,
            },
            BucketLayout::Paged { total_size } => LayoutView::Paged {
                total_size: total_size as nat,
            },
        }
    }
}

impl LayoutView {
    /// The two sizes by which a layout is written down.
    pub open spec fn sizes(self) -> (nat, nat) {
        match self {
            LayoutView::Empty => (0, 0),
            LayoutView::Monolithic { compressed_size, uncompressed_size } => (
                compressed_size,
                uncompressed_size,
            ),
            LayoutView::Paged { total_size } => (total_size, 0),
        }
    }

    /// Whether the sizes tell the layout from all others.
    pub open spec fn definite(self) -> bool {
        match self {
            LayoutView::Empty => true,
            LayoutView::Monolithic { compressed_size, uncompressed_size } => compressed_size > 0
                && uncompressed_size > 0,
            LayoutView::Paged { total_size } => total_size > 0,
        }
    }
}

/// The layout that two sizes describe, if they do.
pub open spec fn layout_of(size: nat, uncompressed_size: nat) -> Result<LayoutView, Error> {
    if size == 0 && uncompressed_size == 0 {
        Ok(LayoutView::Empty)
    } else if size == 0 {
        Err(Error::BadLayout)
    } else if uncompressed_size == 0 {
        Ok(LayoutView::Paged { total_size: size })
    } else {
        Ok(LayoutView::Monolithic { compressed_size: size, uncompressed_size })
    }
}

/// A definite layout is what its sizes describe.
pub proof fn lemma_layout_round_trip(l: LayoutView)
    requires
        l.definite(),
    ensures
        layout_of(l.sizes().0, l.sizes().1) == Ok::<LayoutView, Error>(l),
{
}

impl BucketLayout {
    /// The two sizes by which the layout is written down.
    pub fn encode(&self) -> (r: (usize, usize))
        ensures
            (r.0 as nat, r.1 as nat) == self@.sizes(),
    {
        match *self {
            BucketLayout::Empty => (0, 0),
            BucketLayout::Monolithic { compressed_size, uncompressed_size } => (
                compressed_size,
                uncompressed_size,
            ),
            BucketLayout::Paged { total_size } => (total_size, 0),
        }
    }

    /// The layout that two sizes describe.
    pub fn decode(compressed_size: usize, bulk_decompress_size: usize) -> (r: Result<
        BucketLayout,
        Error,
    >)
        ensures
            match layout_of(compressed_size as nat, bulk_decompress_size as nat) {
                Ok(l) => r is Ok && r->Ok_0@ == l,
                Err(e) => r is Err && r->Err_0 == e,
            },
    {
        if compressed_size == 0 && bulk_decompress_size == 0 {
            Ok(BucketLayout::Empty)
        } else if compressed_size == 0 {
            Err(Error::BadLayout)
        } else if bulk_decompress_size == 0 {
            Ok(BucketLayout::Paged { total_size: compressed_size })
        } else {
            Ok(
                BucketLayout::Monolithic {
                    compressed_size,
                    uncompressed_size: bulk_decompress_size,
                },
            )
        }
    }
}

/// A row group: where its buckets are, how they are stored, and its statistics.
#[derive(Debug, Clone)]
pub struct RowGroupMeta {
    pub num_rows: usize,
    pub bucket_offsets: Vec<u64>,
    pub bucket_layouts: Vec<BucketLayout>,
    pub stats: Vec<ColumnStats>,
}

/// The mathematical content of a [`RowGroupMeta`].
#[verifier::ext_equal]
pub struct GroupView {
    pub num_rows: nat,
    pub offsets: Seq<u64>,
    pub layouts: Seq<LayoutView>,
    pub stats: Seq<ColumnStatsView>,
}

/// The contents of a list of layouts.
pub open spec fn layout_views(v: Seq<BucketLayout>) -> Seq<LayoutView> {
    Seq::new(v.len(), |i: int| v[i]@)
}

impl View for RowGroupMeta {
    type V = GroupView;

    open spec fn view(&self) -> GroupView {
        GroupView {
            num_rows: self.num_rows as nat,
            offsets: self.bucket_offsets@,
            layouts: layout_views(self.bucket_layouts@),
            stats: stats::stats_views(self.stats@),
        }
    }
}

/// The contents of a list of row groups.
pub open spec fn group_views(v: Seq<RowGroupMeta>) -> Seq<GroupView> {
    Seq::new(v.len(), |i: int| v[i]@)
}

/// How many of the layouts store something.
pub open spec fn stored_count(layouts: Seq<LayoutView>) -> nat
    decreases layouts.len(),
{
    if layouts.len() == 0 {
        0
    } else if layouts.last() == LayoutView::Empty {
        stored_count(layouts.drop_last())
    } else {
        stored_count(layouts.drop_last()) + 1
    }
}

/// The bytes of bucket `b` in the index.
pub open spec fn entry_bytes(b: nat, offset: u64, l: LayoutView) -> Seq<u8> {
    varint::leb(b) + bytes::be(offset as nat, 8) + varint::leb(l.sizes().0) + varint::leb(
        l.sizes().1,
    )
}

/// The bytes of the first `n` buckets in the index: one entry for each that has a
/// size.
pub open spec fn entries_bytes(offsets: Seq<u64>, layouts: Seq<LayoutView>, n: nat) -> Seq<u8>
    decreases n,
{
    if n == 0 {
        Seq::empty()
    } else {
        let before = entries_bytes(offsets, layouts, (n - 1) as nat);
        if layouts[n - 1].sizes().0 > 0 {
            before + entry_bytes((n - 1) as nat, offsets[n - 1], layouts[n - 1])
        } else {
            before
        }
    }
}

/// The bytes of a row group in the index.
pub open spec fn group_bytes(g: GroupView) -> Seq<u8> {
    varint::leb(g.num_rows) + varint::leb(stored_count(g.layouts)) + entries_bytes(
        g.offsets,
        g.layouts,
        g.layouts.len(),
    ) + stats::stats_bytes(g.stats)
}

/// The bytes of the first `n` row groups.
pub open spec fn index_bytes(groups: Seq<GroupView>, n: nat) -> Seq<u8>
    decreases n,
{
    if n == 0 {
        Seq::empty()
    } else {
        index_bytes(groups, (n - 1) as nat) + group_bytes(groups[n - 1])
    }
}

/// Whether the sizes that the index has of a bucket fit in 32 bits.
pub open spec fn short(l: LayoutView) -> bool {
    l.sizes().0 > 0 ==> l.sizes().0 <= u32::MAX && l.sizes().1 <= u32::MAX
}

/// Whether all numbers of a row group fit in the 32 bits that the index has for
/// them.
pub open spec fn compact(g: GroupView) -> bool {
    &&& g.num_rows <= u32::MAX
    &&& forall|b: int| 0 <= b < g.layouts.len() ==> short(#[trigger] g.layouts[b])
}

/// A row group that can be put in the index of a file with the given columns.
pub open spec fn writable_group(g: GroupView, dts: Seq<DataType>, num_buckets: nat) -> bool {
    &&& g.offsets.len() == num_buckets
    &&& g.layouts.len() == num_buckets
    &&& num_buckets <= u32::MAX
    &&& g.num_rows <= u32::MAX ==> stats::writable_stats(g.stats, dts)
}

/// Whether all buckets of a row group end at `limit` at the latest.
pub open spec fn within_limit(offsets: Seq<u64>, layouts: Seq<LayoutView>, limit: int) -> bool {
    forall|b: int|
        #![trigger offsets[b]]
        #![trigger layouts[b]]
        0 <= b < layouts.len() ==> offsets[b] + layouts[b].sizes().0 <= limit
}

/// The buckets of a row group that were read so far.
pub struct Entries {
    pub offsets: Seq<u64>,
    pub layouts: Seq<LayoutView>,
    pub seen: Seq<bool>,
}

/// No bucket of a row group was read yet.
pub open spec fn no_entries(num_buckets: nat) -> Entries {
    Entries {
        offsets: Seq::new(num_buckets, |b: int| 0u64),
        layouts: Seq::new(num_buckets, |b: int| LayoutView::Empty),
        seen: Seq::new(num_buckets, |b: int| false),
    }
}

/// The buckets with the entry at `p` taken in, and the position behind it. Buckets
/// end at `limit` at the latest.
#[verifier::opaque]
pub open spec fn parse_entry(s: Seq<u8>, p: int, limit: int, acc: Entries) -> Result<
    (Entries, int),
    Error,
> {
    let p1 = varint::parse_end(s, p, 5);
    let p2 = p1 + 8;
    let p3 = varint::parse_end(s, p2, 5);
    match varint::parse_u32(s, p) {
        Err(e) => Err(e),
        Ok(b) => if b >= acc.seen.len() || p2 > s.len() {
            Err(Error::IndexCorrupt)
        } else if acc.seen[b as int] {
            Err(Error::DuplicateBucket)
        } else {
            let offset = bytes::be_value(s.subrange(p1, p2));
            match varint::parse_u32(s, p2) {
                Err(e) => Err(e),
                Ok(size) => match varint::parse_u32(s, p3) {
                    Err(e) => Err(e),
                    Ok(uncompressed) => match layout_of(size as nat, uncompressed as nat) {
                        Err(e) => Err(e),
                        Ok(l) => if offset + size > u64::MAX {
                            Err(Error::BucketOverflow)
                        } else if offset + size > limit {
                            Err(Error::BucketPastSchema)
                        } else {
                            Ok(
                                (
                                    Entries {
                                        offsets: acc.offsets.update(b as int, offset as u64),
                                        layouts: acc.layouts.update(b as int, l),
                                        seen: acc.seen.update(b as int, true),
                                    },
                                    varint::parse_end(s, p3, 5),
                                ),
                            )
                        },
                    },
                },
            }
        },
    }
}

/// The buckets with the `n` entries from `p` on taken in, and the position behind
/// them.
pub open spec fn entries_from(s: Seq<u8>, p: int, limit: int, n: nat, acc: Entries) -> Result<
    (Entries, int),
    Error,
>
    decreases n,
{
    if n == 0 {
        Ok((acc, p))
    } else {
        match parse_entry(s, p, limit, acc) {
            Err(e) => Err(e),
            Ok((now, q)) => entries_from(s, q, limit, (n - 1) as nat, now),
        }
    }
}

/// The row group at `p`, and the position behind it.
#[verifier::opaque]
pub open spec fn parse_group(
    s: Seq<u8>,
    p: int,
    limit: int,
    num_buckets: nat,
    dts: Seq<DataType>,
) -> Result<(GroupView, int), Error> {
    let p1 = varint::parse_end(s, p, 5);
    let p2 = varint::parse_end(s, p1, 5);
    match varint::parse_u32(s, p) {
        Err(e) => Err(e),
        Ok(num_rows) => match varint::parse_u32(s, p1) {
            Err(e) => Err(e),
            Ok(n) => if n > num_buckets {
                Err(Error::NonEmptyCount)
            } else {
                match entries_from(s, p2, limit, n as nat, no_entries(num_buckets)) {
                    Err(e) => Err(e),
                    Ok((found, p3)) => match stats::parse_stats(s, p3, dts, num_rows as nat) {
                        Err(e) => Err(e),
                        Ok((ts, p4)) => Ok(
                            (
                                GroupView {
                                    num_rows: num_rows as nat,
                                    offsets: found.offsets,
                                    layouts: found.layouts,
                                    stats: ts,
                                },
                                p4,
                            ),
                        ),
                    },
                }
            },
        },
    }
}

/// The `n` row groups from `p` on, behind those in `acc`, and the position behind
/// them.
pub open spec fn groups_from(
    s: Seq<u8>,
    p: int,
    limit: int,
    num_buckets: nat,
    dts: Seq<DataType>,
    n: nat,
    acc: Seq<GroupView>,
) -> Result<(Seq<GroupView>, int), Error>
    decreases n,
{
    if n == 0 {
        Ok((acc, p))
    } else {
        match parse_group(s, p, limit, num_buckets, dts) {
            Err(e) => Err(e),
            Ok((g, q)) => groups_from(
                s,
                q,
                limit,
                num_buckets,
                dts,
                (n - 1) as nat,
                acc.push(g),
            ),
        }
    }
}

/// The row groups that the bytes of an index list.
#[verifier::opaque]
pub open spec fn parse_index(
    s: Seq<u8>,
    limit: int,
    num_buckets: nat,
    dts: Seq<DataType>,
    n: nat,
) -> Result<Seq<GroupView>, Error> {
    match groups_from(s, 0, limit, num_buckets, dts, n, Seq::empty()) {
        Err(e) => Err(e),
        Ok((groups, end)) => if end != s.len() {
            Err(Error::TrailingIndex)
        } else {
            Ok(groups)
        },
    }
}

/// What the last bytes of a file say.
#[derive(Debug, Clone, Copy)]
pub struct Footer {
    pub index_offset: u64,
    pub schema_offset: u64,
    pub num_buckets: u32,
    pub num_row_groups: u32,
    pub compression: u8,
}

/// The bytes of a footer.
pub open spec fn footer_bytes(f: Footer) -> Seq<u8> {
    bytes::be(f.index_offset as nat, 8) + bytes::be(f.schema_offset as nat, 8) + bytes::be(
        f.num_buckets as nat,
        4,
    ) + bytes::be(f.num_row_groups as nat, 4) + seq![f.compression, VERSION, 0u8, 0u8] + MAGIC@
}

/// The footer that the last bytes of a file of the given length spell.
pub open spec fn parse_footer(s: Seq<u8>, file_len: int) -> Result<Footer, Error> {
    let f = Footer {
        index_offset: bytes::be_value(s.subrange(0, 8)) as u64,
        schema_offset: bytes::be_value(s.subrange(8, 16)) as u64,
        num_buckets: bytes::be_value(s.subrange(16, 20)) as u32,
        num_row_groups: bytes::be_value(s.subrange(20, 24)) as u32,
        compression: s[24],
    };
    if s.subrange(28, 32) != MAGIC@ {
        Err(Error::BadMagic)
    } else if s[25] != VERSION {
        Err(Error::UnsupportedVersion)
    } else if f.schema_offset + 4 <= f.index_offset && f.index_offset <= file_len - FOOTER_SIZE {
        Ok(f)
    } else {
        Err(Error::FooterOffsets)
    }
}

/// A number that has to fit in 32 bits.
pub fn to_u32(v: usize) -> (r: Result<u32, Error>)
    ensures
        r == (if v <= u32::MAX {
            Ok(v as u32)
        } else {
            Err(Error::SizeOverflow)
        }),
{
    if v <= u32::MAX as usize {
        Ok(v as u32)
    } else {
        Err(Error::SizeOverflow)
    }
}

/// Appends the buckets of a row group to an index.
fn write_entries(buf: &mut Vec<u8>, meta: &RowGroupMeta) -> (r: Result<(), Error>)
    requires
        meta.bucket_offsets@.len() == meta.bucket_layouts@.len() <= u32::MAX,
    ensures
        match r {
            Ok(()) => {
                &&& final(buf)@ == old(buf)@ + entries_bytes(
                    meta@.offsets,
                    meta@.layouts,
                    meta@.layouts.len(),
                )
                &&& forall|b: int|
                    0 <= b < meta@.layouts.len() ==> short(#[trigger] meta@.layouts[b])
            },
            Err(e) => e == Error::SizeOverflow && exists|b: int|
                0 <= b < meta@.layouts.len() && !short(#[trigger] meta@.layouts[b]),
        },
{
    let ghost base = buf@;
    let ghost g = meta@;
    let n: usize = meta.bucket_layouts.len();
    let mut b: usize = 0;
    assert(buf@ =~= base + entries_bytes(g.offsets, g.layouts, 0));
    while b < n
        invariant
            b <= n,
            n == meta.bucket_layouts@.len(),
            meta.bucket_offsets@.len() == n,
            n <= u32::MAX,
            g == meta@,
            buf@ == base + entries_bytes(g.offsets, g.layouts, b as nat),
            forall|c: int| 0 <= c < b ==> short(#[trigger] g.layouts[c]),
        decreases n - b,
    {
        let (size, uncompressed): (usize, usize) = meta.bucket_layouts[b].encode();
        assert(g.layouts[b as int].sizes() == (size as nat, uncompressed as nat));
        let ghost before = buf@;
        if size > 0 {
            let size: u32 = match to_u32(size) {
                Err(e) => {
                    return Err(e);
                },
                Ok(v) => v,
            };
            let uncompressed: u32 = match to_u32(uncompressed) {
                Err(e) => {
                    return Err(e);
                },
                Ok(v) => v,
            };
            varint::encode(buf, b as u32);
            bytes::write_be(buf, meta.bucket_offsets[b], 8);
            varint::encode(buf, size);
            varint::encode(buf, uncompressed);
            assert(buf@ =~= before + entry_bytes(
                b as nat,
                g.offsets[b as int],
                g.layouts[b as int],
            ));
            assert(buf@ =~= base + entries_bytes(g.offsets, g.layouts, (b + 1) as nat));
        }
        b = b + 1;
    }
    Ok(())
}

/// How many of the layouts store something.
fn count_stored(layouts: &Vec<BucketLayout>) -> (r: usize)
    ensures
        r == stored_count(layout_views(layouts@)),
        r <= layouts@.len(),
{
    let ghost ls = layout_views(layouts@);
    let mut count: usize = 0;
    let mut i: usize = 0;
    assert(ls.take(0) =~= Seq::<LayoutView>::empty());
    while i < layouts.len()
        invariant
            i <= layouts@.len(),
            count <= i,
            ls == layout_views(layouts@),
            count == stored_count(ls.take(i as int)),
        decreases layouts@.len() - i,
    {
        proof {
            assert(ls.take(i + 1).drop_last() =~= ls.take(i as int));
            assert(ls.take(i + 1).last() == layouts@[i as int]@);
        }
        if layouts[i] != BucketLayout::Empty {
            count = count + 1;
        }
        i = i + 1;
    }
    assert(ls.take(i as int) =~= ls);
    count
}

/// Appends a row group to an index.
fn write_group(buf: &mut Vec<u8>, meta: &RowGroupMeta, columns: &Vec<ColumnMeta>) -> (r: Result<
    (),
    Error,
>)
    requires
        writable_group(
            meta@,
            schema::column_types(schema::column_metas(columns@)),
            meta@.layouts.len(),
        ),
    ensures
        r is Ok <==> compact(meta@),
        match r {
            Ok(()) => final(buf)@ == old(buf)@ + group_bytes(meta@),
            Err(e) => e == Error::SizeOverflow,
        },
{
    let ghost g = meta@;
    let ghost base = buf@;
    let num_rows: u32 = match to_u32(meta.num_rows) {
        Err(e) => {
            return Err(e);
        },
        Ok(v) => v,
    };
    varint::encode(buf, num_rows);
    let stored: usize = count_stored(&meta.bucket_layouts);
    varint::encode(buf, stored as u32);
    match write_entries(buf, meta) {
        Err(e) => {
            return Err(e);
        },
        Ok(()) => {},
    }
    let ghost before = buf@;
    let stats_part: Vec<u8> = stats::serialize_stats(&meta.stats, columns);
    bytes::append_bytes(buf, &stats_part);
    assert(buf@ =~= base + group_bytes(g));
    Ok(())
}

/// The bytes of the index of the row groups.
pub fn write_index(metas: &Vec<RowGroupMeta>, columns: &Vec<ColumnMeta>, num_buckets: usize) -> (r:
    Result<Vec<u8>, Error>)
    requires
        forall|i: int|
            0 <= i < metas@.len() ==> writable_group(
                #[trigger] metas@[i]@,
                schema::column_types(schema::column_metas(columns@)),
                num_buckets as nat,
            ),
    ensures
        r is Ok <==> forall|i: int| 0 <= i < metas@.len() ==> compact(#[trigger] metas@[i]@),
        match r {
            Ok(buf) => buf@ == index_bytes(group_views(metas@), metas@.len()),
            Err(e) => e == Error::SizeOverflow,
        },
{
    let ghost groups = group_views(metas@);
    let mut buf: Vec<u8> = Vec::new();
    let mut i: usize = 0;
    while i < metas.len()
        invariant
            i <= metas@.len(),
            groups == group_views(metas@),
            forall|j: int|
                0 <= j < metas@.len() ==> writable_group(
                    #[trigger] metas@[j]@,
                    schema::column_types(schema::column_metas(columns@)),
                    num_buckets as nat,
                ),
            buf@ == index_bytes(groups, i as nat),
            forall|j: int| 0 <= j < i ==> compact(#[trigger] metas@[j]@),
        decreases metas@.len() - i,
    {
        assert(groups[i as int] == metas@[i as int]@);
        match write_group(&mut buf, &metas[i], columns) {
            Err(e) => {
                return Err(e);
            },
            Ok(()) => {},
        }
        i = i + 1;
    }
    Ok(buf)
}

/// Reads the entry at `*pos`, takes it in and moves `*pos` behind it.
fn read_entry(
    data: &[u8],
    pos: &mut usize,
    limit: u64,
    offsets: &mut Vec<u64>,
    layouts: &mut Vec<BucketLayout>,
    seen: &mut Vec<bool>,
) -> (r: Result<(), Error>)
    requires
        *old(pos) <= data@.len(),
        old(offsets)@.len() == old(seen)@.len(),
        old(layouts)@.len() == old(seen)@.len(),
    ensures
        match parse_entry(
            data@,
            *old(pos) as int,
            limit as int,
            (Entries {
                offsets: old(offsets)@,
                layouts: layout_views(old(layouts)@),
                seen: old(seen)@,
            }),
        ) {
            Ok((now, end)) => {
                &&& r is Ok
                &&& final(offsets)@ == now.offsets
                &&& layout_views(final(layouts)@) == now.layouts
                &&& final(seen)@ == now.seen
                &&& final(offsets)@.len() == old(seen)@.len()
                &&& final(layouts)@.len() == old(seen)@.len()
                &&& final(seen)@.len() == old(seen)@.len()
                &&& within_limit(
                    old(offsets)@,
                    layout_views(old(layouts)@),
                    limit as int,
                ) ==> within_limit(now.offsets, now.layouts, limit as int)
                &&& *final(pos) == end
                &&& end <= data@.len()
            },
            Err(e) => r is Err && r->Err_0 == e,
        },
{
    let ghost start = *pos as int;
    let ghost before = layout_views(layouts@);
    proof {
        reveal(parse_entry);
        varint::lemma_parse_end(data@, start, 5);
        varint::lemma_parse_end(data@, varint::parse_end(data@, start, 5) + 8, 5);
        varint::lemma_parse_end(
            data@,
            varint::parse_end(data@, varint::parse_end(data@, start, 5) + 8, 5),
            5,
        );
    }
    let b: usize = match varint::decode(data, pos) {
        Err(e) => {
            return Err(e);
        },
        Ok(v) => v as usize,
    };
    if b >= seen.len() || data.len() - *pos < 8 {
        return Err(Error::IndexCorrupt);
    }
    if seen[b] {
        return Err(Error::DuplicateBucket);
    }
    let offset: u64 = bytes::read_be(data, *pos, 8);
    *pos = *pos + 8;
    let size: u32 = match varint::decode(data, pos) {
        Err(e) => {
            return Err(e);
        },
        Ok(v) => v,
    };
    let uncompressed: u32 = match varint::decode(data, pos) {
        Err(e) => {
            return Err(e);
        },
        Ok(v) => v,
    };
    let layout: BucketLayout = match BucketLayout::decode(size as usize, uncompressed as usize) {
        Err(e) => {
            return Err(e);
        },
        Ok(l) => l,
    };
    let end: u64 = match offset.checked_add(size as u64) {
        None => {
            return Err(Error::BucketOverflow);
        },
        Some(v) => v,
    };
    if end > limit {
        return Err(Error::BucketPastSchema);
    }
    offsets.set(b, offset);
    layouts.set(b, layout);
    seen.set(b, true);
    assert(layout_views(layouts@) =~= before.update(b as int, layout@));
    Ok(())
}

/// Reads a row group at `*pos` and moves `*pos` behind it.
#[verifier::loop_isolation(false)]
fn read_group(
    data: &[u8],
    pos: &mut usize,
    limit: u64,
    num_buckets: usize,
    columns: &Vec<ColumnMeta>,
) -> (r: Result<RowGroupMeta, Error>)
    requires
        *old(pos) <= data@.len(),
    ensures
        match parse_group(
            data@,
            *old(pos) as int,
            limit as int,
            num_buckets as nat,
            schema::column_types(schema::column_metas(columns@)),
        ) {
            Ok((g, end)) => {
                &&& r is Ok
                &&& r->Ok_0@ == g
                &&& g.offsets.len() == num_buckets
                &&& g.layouts.len() == num_buckets
                &&& within_limit(g.offsets, g.layouts, limit as int)
                &&& *final(pos) == end
                &&& end <= data@.len()
            },
            Err(e) => r is Err && r->Err_0 == e,
        },
{
    let ghost start = *pos as int;
    let ghost dts = schema::column_types(schema::column_metas(columns@));
    proof {
        reveal(parse_group);
        varint::lemma_parse_end(data@, start, 5);
        varint::lemma_parse_end(data@, varint::parse_end(data@, start, 5), 5);
    }
    let num_rows: usize = match varint::decode(data, pos) {
        Err(e) => {
            return Err(e);
        },
        Ok(v) => v as usize,
    };
    let n: u32 = match varint::decode(data, pos) {
        Err(e) => {
            return Err(e);
        },
        Ok(v) => v,
    };
    if n as usize > num_buckets {
        return Err(Error::NonEmptyCount);
    }
    let ghost behind = *pos as int;
    let mut bucket_offsets: Vec<u64> = vec![0;num_buckets];
    let mut bucket_layouts: Vec<BucketLayout> = vec![BucketLayout::Empty;num_buckets];
    let mut seen: Vec<bool> = vec![false;num_buckets];
    proof {
        assert(bucket_offsets@ =~= no_entries(num_buckets as nat).offsets);
        assert(layout_views(bucket_layouts@) =~= no_entries(num_buckets as nat).layouts);
        assert(seen@ =~= no_entries(num_buckets as nat).seen);
    }
    let mut left: u32 = n;
    while left > 0
        invariant
            left <= n,
            *pos <= data@.len(),
            bucket_offsets@.len() == num_buckets,
            bucket_layouts@.len() == num_buckets,
            seen@.len() == num_buckets,
            within_limit(bucket_offsets@, layout_views(bucket_layouts@), limit as int),
            entries_from(
                data@,
                behind,
                limit as int,
                n as nat,
                no_entries(num_buckets as nat),
            ) == entries_from(
                data@,
                *pos as int,
                limit as int,
                left as nat,
                (Entries {
                    offsets: bucket_offsets@,
                    layouts: layout_views(bucket_layouts@),
                    seen: seen@,
                }),
            ),
        decreases left,
    {
        match read_entry(
            data,
            pos,
            limit,
            &mut bucket_offsets,
            &mut bucket_layouts,
            &mut seen,
        ) {
            Err(e) => {
                return Err(e);
            },
            Ok(()) => {},
        }
        left = left - 1;
    }
    let found: Vec<ColumnStats> = match stats::deserialize_stats(data, pos, columns, num_rows) {
        Err(e) => {
            return Err(e);
        },
        Ok(v) => v,
    };
    Ok(RowGroupMeta { num_rows, bucket_offsets, bucket_layouts, stats: found })
}

/// Reads the index of `n` row groups.
#[verifier::loop_isolation(false)]
pub fn read_index(
    data: &[u8],
    limit: u64,
    num_buckets: usize,
    columns: &Vec<ColumnMeta>,
    n: u32,
) -> (r: Result<Vec<RowGroupMeta>, Error>)
    ensures
        match parse_index(
            data@,
            limit as int,
            num_buckets as nat,
            schema::column_types(schema::column_metas(columns@)),
            n as nat,
        ) {
            Ok(groups) => {
                &&& r is Ok
                &&& group_views(r->Ok_0@) == groups
                &&& forall|i: int|
                    0 <= i < groups.len() ==> (#[trigger] groups[i]).offsets.len() == num_buckets
                        && groups[i].layouts.len() == num_buckets && within_limit(
                        groups[i].offsets,
                        groups[i].layouts,
                        limit as int,
                    )
            },
            Err(e) => r is Err && r->Err_0 == e,
        },
{
    let ghost dts = schema::column_types(schema::column_metas(columns@));
    let mut pos: usize = 0;
    let mut metas: Vec<RowGroupMeta> = Vec::new();
    let mut left: u32 = n;
    proof {
        reveal(parse_index);
    }
    assert(group_views(metas@) =~= Seq::<GroupView>::empty());
    while left > 0
        invariant
            left <= n,
            pos <= data@.len(),
            forall|i: int|
                0 <= i < metas@.len() ==> (#[trigger] group_views(metas@)[i]).offsets.len()
                    == num_buckets && group_views(metas@)[i].layouts.len() == num_buckets
                    && within_limit(
                    group_views(metas@)[i].offsets,
                    group_views(metas@)[i].layouts,
                    limit as int,
                ),
            groups_from(
                data@,
                0,
                limit as int,
                num_buckets as nat,
                dts,
                n as nat,
                Seq::empty(),
            ) == groups_from(
                data@,
                pos as int,
                limit as int,
                num_buckets as nat,
                dts,
                left as nat,
                group_views(metas@),
            ),
        decreases left,
    {
        let ghost before = group_views(metas@);
        match read_group(data, &mut pos, limit, num_buckets, columns) {
            Err(e) => {
                return Err(e);
            },
            Ok(g) => {
                metas.push(g);
                assert(group_views(metas@) =~= before.push(g@));
            },
        }
        left = left - 1;
    }
    if pos != data.len() {
        return Err(Error::TrailingIndex);
    }
    Ok(metas)
}

/// The bytes of a footer.
pub fn write_footer(f: &Footer) -> (buf: Vec<u8>)
    ensures
        buf@ == footer_bytes(*f),
        buf@.len() == FOOTER_SIZE,
{
    let mut buf: Vec<u8> = Vec::new();
    bytes::write_be(&mut buf, f.index_offset, 8);
    bytes::write_be(&mut buf, f.schema_offset, 8);
    bytes::write_be(&mut buf, f.num_buckets as u64, 4);
    bytes::write_be(&mut buf, f.num_row_groups as u64, 4);
    buf.push(f.compression);
    buf.push(VERSION);
    buf.push(0);
    buf.push(0);
    buf.push(MAGIC[0]);
    buf.push(MAGIC[1]);
    buf.push(MAGIC[2]);
    buf.push(MAGIC[3]);
    proof {
        bytes::lemma_be_len(f.index_offset as nat, 8);
        bytes::lemma_be_len(f.schema_offset as nat, 8);
        bytes::lemma_be_len(f.num_buckets as nat, 4);
        bytes::lemma_be_len(f.num_row_groups as nat, 4);
        assert(buf@ =~= footer_bytes(*f));
    }
    buf
}

/// Reads the footer of a file of the given length from the file's last bytes.
pub fn read_footer(s: &[u8], file_len: u64) -> (r: Result<Footer, Error>)
    requires
        s@.len() == FOOTER_SIZE,
        file_len >= FOOTER_SIZE,
    ensures
        match parse_footer(s@, file_len as int) {
            Ok(f) => r is Ok && r->Ok_0 == f,
            Err(e) => r is Err && r->Err_0 == e,
        },
{
    let magic: bool = s[28] == MAGIC[0] && s[29] == MAGIC[1] && s[30] == MAGIC[2] && s[31]
        == MAGIC[3];
    proof {
        let t = s@.subrange(28, 32);
        if magic {
            assert(t =~= MAGIC@);
        } else if t == MAGIC@ {
            assert(t[0] == MAGIC@[0] && t[1] == MAGIC@[1] && t[2] == MAGIC@[2] && t[3]
                == MAGIC@[3]);
        }
    }
    if !magic {
        return Err(Error::BadMagic);
    }
    if s[25] != VERSION {
        return Err(Error::UnsupportedVersion);
    }
    let f: Footer = Footer {
        index_offset: bytes::read_be(s, 0, 8),
        schema_offset: bytes::read_be(s, 8, 8),
        num_buckets: bytes::read_be(s, 16, 4) as u32,
        num_row_groups: bytes::read_be(s, 20, 4) as u32,
        compression: s[24],
    };
    if f.index_offset <= file_len - FOOTER_SIZE as u64 && f.index_offset >= 4 && f.schema_offset
        <= f.index_offset - 4 {
        Ok(f)
    } else {
        Err(Error::FooterOffsets)
    }
}

/// All footers have the same size.
pub proof fn lemma_footer_len(f: Footer)
    ensures
        footer_bytes(f).len() == FOOTER_SIZE,
{
    bytes::lemma_be_len(f.index_offset as nat, 8);
    bytes::lemma_be_len(f.schema_offset as nat, 8);
    bytes::lemma_be_len(f.num_buckets as nat, 4);
    bytes::lemma_be_len(f.num_row_groups as nat, 4);
}

/// Reading the bytes of a footer whose offsets are in order gives the footer back.
pub proof fn lemma_footer_round_trip(f: Footer, file_len: int)
    requires
        f.schema_offset + 4 <= f.index_offset <= file_len - FOOTER_SIZE,
    ensures
        parse_footer(footer_bytes(f), file_len) == Ok::<Footer, Error>(f),
{
    bytes::lemma_bases();
    bytes::lemma_be_round_trip(f.index_offset as nat, 8);
    bytes::lemma_be_round_trip(f.schema_offset as nat, 8);
    bytes::lemma_be_round_trip(f.num_buckets as nat, 4);
    bytes::lemma_be_round_trip(f.num_row_groups as nat, 4);
    bytes::lemma_be_len(f.index_offset as nat, 8);
    bytes::lemma_be_len(f.schema_offset as nat, 8);
    bytes::lemma_be_len(f.num_buckets as nat, 4);
    bytes::lemma_be_len(f.num_row_groups as nat, 4);
    let s = footer_bytes(f);
    assert(s.subrange(0, 8) =~= bytes::be(f.index_offset as nat, 8));
    assert(s.subrange(8, 16) =~= bytes::be(f.schema_offset as nat, 8));
    assert(s.subrange(16, 20) =~= bytes::be(f.num_buckets as nat, 4));
    assert(s.subrange(20, 24) =~= bytes::be(f.num_row_groups as nat, 4));
    assert(s.subrange(28, 32) =~= MAGIC@);
}

/// A row group that is read back from the index as it was written.
pub open spec fn exact_group(
    g: GroupView,
    limit: int,
    num_buckets: nat,
    dts: Seq<DataType>,
) -> bool {
    &&& g.offsets.len() == num_buckets
    &&& g.layouts.len() == num_buckets
    &&& num_buckets <= u32::MAX
    &&& compact(g)
    &&& within_limit(g.offsets, g.layouts, limit)
    &&& forall|b: int|
        0 <= b < g.layouts.len() ==> (#[trigger] g.layouts[b]).definite() && (g.layouts[b]
            == LayoutView::Empty ==> g.offsets[b] == 0)
    &&& g.stats.len() <= u32::MAX
    &&& forall|i: int|
        0 <= i < g.stats.len() ==> stats::complete_stat(#[trigger] g.stats[i], dts, g.num_rows)
}

/// The first `b` buckets of a row group.
spec fn first_entries(g: GroupView, b: int) -> Entries {
    Entries {
        offsets: Seq::new(
            g.offsets.len(),
            |i: int| if i < b {
                g.offsets[i]
            } else {
                0u64
            },
        ),
        layouts: Seq::new(
            g.layouts.len(),
            |i: int| if i < b {
                g.layouts[i]
            } else {
                LayoutView::Empty
            },
        ),
        seen: Seq::new(g.layouts.len(), |i: int| i < b && g.layouts[i] != LayoutView::Empty),
    }
}

proof fn lemma_entry_round_trip(
    g: GroupView,
    limit: int,
    num_buckets: nat,
    dts: Seq<DataType>,
    s: Seq<u8>,
    p: int,
    b: int,
)
    requires
        exact_group(g, limit, num_buckets, dts),
        0 <= b < num_buckets,
        limit <= u64::MAX,
        g.layouts[b] != LayoutView::Empty,
        bytes::has_at(s, p, entry_bytes(b as nat, g.offsets[b], g.layouts[b])),
    ensures
        parse_entry(s, p, limit, first_entries(g, b)) == Ok::<(Entries, int), Error>(
            (
                first_entries(g, b + 1),
                p + entry_bytes(b as nat, g.offsets[b], g.layouts[b]).len(),
            ),
        ),
{
    reveal(parse_entry);
    let l = g.layouts[b];
    let x1 = varint::leb(b as nat);
    let x2 = bytes::be(g.offsets[b] as nat, 8);
    let x3 = varint::leb(l.sizes().0);
    let x4 = varint::leb(l.sizes().1);
    assert(short(l));
    bytes::lemma_bases();
    bytes::lemma_be_len(g.offsets[b] as nat, 8);
    bytes::lemma_be_round_trip(g.offsets[b] as nat, 8);
    bytes::lemma_has_at_split(s, p, x1 + x2 + x3, x4);
    bytes::lemma_has_at_split(s, p, x1 + x2, x3);
    bytes::lemma_has_at_split(s, p, x1, x2);
    varint::lemma_u32_round_trip(s, p, b as u32);
    let p1 = p + x1.len();
    let p2 = p1 + 8;
    varint::lemma_u32_round_trip(s, p2, l.sizes().0 as u32);
    varint::lemma_u32_round_trip(s, p2 + x3.len(), l.sizes().1 as u32);
    lemma_layout_round_trip(l);
    assert(g.offsets[b] + l.sizes().0 <= limit);
    let before = first_entries(g, b);
    let after = first_entries(g, b + 1);
    assert(before.offsets.update(b, g.offsets[b]) =~= after.offsets);
    assert(before.layouts.update(b, l) =~= after.layouts);
    assert(before.seen.update(b, true) =~= after.seen);
}

proof fn lemma_entries_prefix(g: GroupView, s: Seq<u8>, p: int, k: nat, n: nat)
    requires
        k <= n,
        bytes::has_at(s, p, entries_bytes(g.offsets, g.layouts, n)),
    ensures
        bytes::has_at(s, p, entries_bytes(g.offsets, g.layouts, k)),
    decreases n,
{
    if k < n {
        if g.layouts[n - 1].sizes().0 > 0 {
            bytes::lemma_has_at_split(
                s,
                p,
                entries_bytes(g.offsets, g.layouts, (n - 1) as nat),
                entry_bytes((n - 1) as nat, g.offsets[n - 1], g.layouts[n - 1]),
            );
        }
        lemma_entries_prefix(g, s, p, k, (n - 1) as nat);
    }
}

proof fn lemma_stored_count_monotone(layouts: Seq<LayoutView>, k: int)
    requires
        0 <= k <= layouts.len(),
    ensures
        stored_count(layouts.take(k)) <= stored_count(layouts) <= layouts.len(),
    decreases layouts.len(),
{
    if layouts.len() > 0 {
        if k < layouts.len() {
            lemma_stored_count_monotone(layouts.drop_last(), k);
            assert(layouts.drop_last().take(k) =~= layouts.take(k));
        } else {
            lemma_stored_count_monotone(layouts.drop_last(), k - 1);
            assert(layouts.take(k) =~= layouts);
        }
    }
}

proof fn lemma_entries_round_trip(
    g: GroupView,
    limit: int,
    num_buckets: nat,
    dts: Seq<DataType>,
    s: Seq<u8>,
    p: int,
    b: int,
)
    requires
        exact_group(g, limit, num_buckets, dts),
        0 <= b <= num_buckets,
        limit <= u64::MAX,
        bytes::has_at(s, p, entries_bytes(g.offsets, g.layouts, num_buckets)),
    ensures
        entries_from(
            s,
            p + entries_bytes(g.offsets, g.layouts, b as nat).len(),
            limit,
            (stored_count(g.layouts) - stored_count(g.layouts.take(b))) as nat,
            first_entries(g, b),
        ) == Ok::<(Entries, int), Error>(
            (
                first_entries(g, num_buckets as int),
                p + entries_bytes(g.offsets, g.layouts, num_buckets).len(),
            ),
        ),
    decreases num_buckets - b,
{
    lemma_stored_count_monotone(g.layouts, b);
    if b < num_buckets {
        lemma_stored_count_monotone(g.layouts, b + 1);
        let q = p + entries_bytes(g.offsets, g.layouts, b as nat).len();
        assert(g.layouts.take(b + 1).drop_last() =~= g.layouts.take(b));
        assert(g.layouts.take(b + 1).last() == g.layouts[b]);
        lemma_entries_round_trip(g, limit, num_buckets, dts, s, p, b + 1);
        assert(g.layouts[b].definite());
        if g.layouts[b] == LayoutView::Empty {
            assert(first_entries(g, b).offsets =~= first_entries(g, b + 1).offsets);
            assert(first_entries(g, b).layouts =~= first_entries(g, b + 1).layouts);
            assert(first_entries(g, b).seen =~= first_entries(g, b + 1).seen);
        } else {
            lemma_entries_prefix(g, s, p, (b + 1) as nat, num_buckets);
            bytes::lemma_has_at_split(
                s,
                p,
                entries_bytes(g.offsets, g.layouts, b as nat),
                entry_bytes(b as nat, g.offsets[b], g.layouts[b]),
            );
            lemma_entry_round_trip(g, limit, num_buckets, dts, s, q, b);
        }
    } else {
        assert(g.layouts.take(b) =~= g.layouts);
    }
}

proof fn lemma_group_round_trip(
    g: GroupView,
    limit: int,
    num_buckets: nat,
    dts: Seq<DataType>,
    s: Seq<u8>,
    p: int,
)
    requires
        exact_group(g, limit, num_buckets, dts),
        limit <= u64::MAX,
        bytes::has_at(s, p, group_bytes(g)),
    ensures
        parse_group(s, p, limit, num_buckets, dts) == Ok::<(GroupView, int), Error>(
            (g, p + group_bytes(g).len()),
        ),
{
    reveal(parse_group);
    let x1 = varint::leb(g.num_rows);
    let x2 = varint::leb(stored_count(g.layouts));
    let x3 = entries_bytes(g.offsets, g.layouts, num_buckets);
    let x4 = stats::stats_bytes(g.stats);
    bytes::lemma_has_at_split(s, p, x1 + x2 + x3, x4);
    bytes::lemma_has_at_split(s, p, x1 + x2, x3);
    bytes::lemma_has_at_split(s, p, x1, x2);
    lemma_stored_count_monotone(g.layouts, 0);
    varint::lemma_u32_round_trip(s, p, g.num_rows as u32);
    varint::lemma_u32_round_trip(s, p + x1.len(), stored_count(g.layouts) as u32);
    let p2 = p + x1.len() + x2.len();
    lemma_entries_round_trip(g, limit, num_buckets, dts, s, p2, 0);
    assert(g.layouts.take(0) =~= Seq::<LayoutView>::empty());
    let none = no_entries(num_buckets);
    let first = first_entries(g, 0);
    assert(none.offsets =~= first.offsets);
    assert(none.layouts =~= first.layouts);
    assert(none.seen =~= first.seen);
    let all = first_entries(g, num_buckets as int);
    assert(all.offsets =~= g.offsets);
    assert(all.layouts =~= g.layouts);
    stats::lemma_stats_round_trip(g.stats, dts, g.num_rows, s, p2 + x3.len());
}

proof fn lemma_index_prefix(groups: Seq<GroupView>, s: Seq<u8>, k: nat, n: nat)
    requires
        k <= n,
        bytes::has_at(s, 0, index_bytes(groups, n)),
    ensures
        bytes::has_at(s, 0, index_bytes(groups, k)),
    decreases n,
{
    if k < n {
        bytes::lemma_has_at_split(
            s,
            0,
            index_bytes(groups, (n - 1) as nat),
            group_bytes(groups[n - 1]),
        );
        lemma_index_prefix(groups, s, k, (n - 1) as nat);
    }
}

proof fn lemma_groups_round_trip(
    groups: Seq<GroupView>,
    limit: int,
    num_buckets: nat,
    dts: Seq<DataType>,
    s: Seq<u8>,
    k: nat,
    acc: Seq<GroupView>,
)
    requires
        forall|i: int|
            0 <= i < groups.len() ==> exact_group(#[trigger] groups[i], limit, num_buckets, dts),
        limit <= u64::MAX,
        k <= groups.len(),
        s == index_bytes(groups, groups.len()),
        acc == groups.take(k as int),
    ensures
        groups_from(
            s,
            index_bytes(groups, k).len() as int,
            limit,
            num_buckets,
            dts,
            (groups.len() - k) as nat,
            acc,
        ) == Ok::<(Seq<GroupView>, int), Error>((groups, s.len() as int)),
    decreases groups.len() - k,
{
    if k < groups.len() {
        assert(s.subrange(0, s.len() as int) =~= s);
        lemma_index_prefix(groups, s, k + 1, groups.len());
        bytes::lemma_has_at_split(s, 0, index_bytes(groups, k), group_bytes(groups[k as int]));
        lemma_group_round_trip(
            groups[k as int],
            limit,
            num_buckets,
            dts,
            s,
            index_bytes(groups, k).len() as int,
        );
        assert(acc.push(groups[k as int]) =~= groups.take((k + 1) as int));
        lemma_groups_round_trip(
            groups,
            limit,
            num_buckets,
            dts,
            s,
            k + 1,
            acc.push(groups[k as int]),
        );
    } else {
        assert(acc =~= groups);
    }
}

/// Reading the bytes of an index gives the row groups back.
pub proof fn lemma_index_round_trip(
    groups: Seq<GroupView>,
    limit: int,
    num_buckets: nat,
    dts: Seq<DataType>,
)
    requires
        forall|i: int|
            0 <= i < groups.len() ==> exact_group(#[trigger] groups[i], limit, num_buckets, dts),
        limit <= u64::MAX,
    ensures
        parse_index(
            index_bytes(groups, groups.len()),
            limit,
            num_buckets,
            dts,
            groups.len(),
        ) == Ok::<Seq<GroupView>, Error>(groups),
{
    reveal(parse_index);
    assert(groups.take(0) =~= Seq::<GroupView>::empty());
    lemma_groups_round_trip(
        groups,
        limit,
        num_buckets,
        dts,
        index_bytes(groups, groups.len()),
        0,
        Seq::empty(),
    );
}

} // verus!
