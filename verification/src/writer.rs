//! Writes files.

use crate::batch;
use crate::batch::RecordBatch;
use crate::blocks;
use crate::bucket_writer;
use crate::bucket_writer::{BucketWriter, PagedBucketOutput};
use crate::bytes;
use crate::encoding;
use crate::encoding::Limits;
use crate::error::{Error, ErrorKind};
use crate::format::{
    COMPRESSION_NONE, COMPRESSION_ZSTD, DEFAULT_DICT_MAX_ENTRIES, DEFAULT_DICT_MAX_TOTAL_BYTES,
    DEFAULT_NUM_BUCKETS, DEFAULT_PAGE_SIZE_THRESHOLD, DEFAULT_ROW_GROUP_MAX_SIZE,
    DEFAULT_ZSTD_LEVEL, ENCODING_ALL_NULL,
};
use crate::image;
use crate::image::{GroupData, Settings};
use crate::layout;
use crate::layout::{BucketLayout, Footer, GroupView, LayoutView, RowGroupMeta};
use crate::schema;
use crate::schema::{MosaicSchema, SchemaView};
use crate::stats;
use crate::stats::{ColumnStats, ColumnStatsView, StatsCollector};
use crate::types;
use crate::types::{DataType, Field};
use crate::values;
use crate::values::{Cell, CellView};
use crate::varint;
use vstd::prelude::*;

verus! {

/// A file to write to. What was written stays as it is: writing only adds to it.
pub trait OutputFile {
    /// The bytes of the file so far. Nothing is known of them unless an implementation
    /// says what they are.
    open spec fn written(&self) -> Seq<u8> {
        arbitrary::<spec_fn(&Self) -> Seq<u8>>()(self)
    }

    /// How many of them were handed on by the last flush.
    open spec fn handed_on(&self) -> nat {
        arbitrary::<spec_fn(&Self) -> nat>()(self)
    }

    /// Whether writing to the file never fails.
    open spec fn dependable(&self) -> bool {
        false
    }

    /// What the file failed with last, if it did.
    open spec fn failure(&self) -> Option<Error> {
        arbitrary::<spec_fn(&Self) -> Option<Error>>()(self)
    }

    /// Adds bytes at the end.
    fn write(&mut self, data: &[u8]) -> (r: Result<(), Error>)
        ensures
            old(self).written().is_prefix_of(final(self).written()),
            old(self).dependable() ==> r is Ok && final(self).dependable(),
            match r {
                Ok(()) => final(self).written() == old(self).written() + data@,
                Err(e) => e is Io && final(self).failure() == Some(e),
            },
    ;

    /// Hands all bytes on.
    fn flush(&mut self) -> (r: Result<(), Error>)
        ensures
            final(self).written() == old(self).written(),
            old(self).dependable() ==> r is Ok && final(self).dependable(),
            match r {
                Ok(()) => final(self).handed_on() == final(self).written().len(),
                Err(e) => e is Io && final(self).failure() == Some(e),
            },
    ;

    /// How many bytes the file has so far.
    fn pos(&self) -> (r: u64)
        ensures
            r == self.written().len(),
    ;
}

/// Whether a file stays dependable, and a failure that comes from it is handed on.
pub open spec fn is_fair<S: OutputFile, T>(before: S, after: S, r: Result<T, Error>) -> bool {
    &&& before.dependable() ==> after.dependable()
    &&& r is Err && r->Err_0 is Io ==> !before.dependable() && after.failure() == Some(r->Err_0)
}

/// A file in memory.
pub struct MemoryOutput {
    pub buf: Vec<u8>,
}

impl MemoryOutput {
    /// An empty file.
    pub fn new() -> (f: MemoryOutput)
        ensures
            f.buf@ == Seq::<u8>::empty(),
            f.written() == Seq::<u8>::empty(),
    {
        MemoryOutput { buf: Vec::new() }
    }
}

impl OutputFile for MemoryOutput {
    open spec fn written(&self) -> Seq<u8> {
        self.buf@
    }

    open spec fn handed_on(&self) -> nat {
        self.buf@.len()
    }

    open spec fn dependable(&self) -> bool {
        true
    }

    fn write(&mut self, data: &[u8]) -> (r: Result<(), Error>)
        ensures
            r is Ok,
    {
        bytes::append_bytes(&mut self.buf, data);
        Ok(())
    }

    fn flush(&mut self) -> (r: Result<(), Error>)
        ensures
            r is Ok,
    {
        Ok(())
    }

    fn pos(&self) -> (r: u64) {
        self.buf.len() as u64
    }
}

/// The choices of a writer.
#[derive(Debug, Clone)]
pub struct WriterOptions {
    pub compression: u8,
    pub zstd_level: i32,
    pub num_buckets: usize,
    pub row_group_max_size: u64,
    pub max_dict_total_bytes: usize,
    pub max_dict_entries: usize,
    pub stats_columns: Vec<usize>,
    pub page_size_threshold: usize,
}

impl Default for WriterOptions {
    fn default() -> (o: WriterOptions)
        ensures
            o.compression == COMPRESSION_ZSTD,
            o.zstd_level == DEFAULT_ZSTD_LEVEL,
            o.num_buckets == DEFAULT_NUM_BUCKETS,
            o.row_group_max_size == DEFAULT_ROW_GROUP_MAX_SIZE,
            o.max_dict_total_bytes == DEFAULT_DICT_MAX_TOTAL_BYTES,
            o.max_dict_entries == DEFAULT_DICT_MAX_ENTRIES,
            o.stats_columns@ == Seq::<usize>::empty(),
            o.page_size_threshold == DEFAULT_PAGE_SIZE_THRESHOLD,
    {
        WriterOptions {
            compression: COMPRESSION_ZSTD,
            zstd_level: DEFAULT_ZSTD_LEVEL,
            num_buckets: DEFAULT_NUM_BUCKETS,
            row_group_max_size: DEFAULT_ROW_GROUP_MAX_SIZE,
            max_dict_total_bytes: DEFAULT_DICT_MAX_TOTAL_BYTES,
            max_dict_entries: DEFAULT_DICT_MAX_ENTRIES,
            stats_columns: Vec::new(),
            page_size_threshold: DEFAULT_PAGE_SIZE_THRESHOLD,
        }
    }
}

/// Writes a block.
fn write_compressed<S: OutputFile>(out: &mut S, compression: u8, zstd_level: i32, raw: &[u8]) -> (r:
    Result<usize, Error>)
    ensures
        old(out).written().is_prefix_of(final(out).written()),
        match r {
            Ok(n) => {
                let block = blocks::packed(compression, zstd_level as int, raw@);
                &&& n == block.len()
                &&& final(out).written() == old(out).written() + block
                &&& compression == COMPRESSION_NONE || compression == COMPRESSION_ZSTD
                &&& blocks::faithful(compression, block, raw@)
            },
            Err(e) => block_error(e, compression) || (e == Error::Compress && compression
                == COMPRESSION_ZSTD && blocks::fails(raw@, zstd_level as int)),
        },
        is_fair(*old(out), *final(out), r),
        !is_known(compression) ==> *final(out) == *old(out),
{
    if compression == COMPRESSION_NONE {
        match out.write(raw) {
            Err(e) => Err(e),
            Ok(()) => Ok(raw.len()),
        }
    } else if compression == COMPRESSION_ZSTD {
        let compressed: Vec<u8> = match blocks::deflate(raw, zstd_level) {
            Err(e) => {
                return Err(e);
            },
            Ok(v) => v,
        };
        match out.write(&compressed) {
            Err(e) => Err(e),
            Ok(()) => Ok(compressed.len()),
        }
    } else {
        Err(Error::WriterCompression)
    }
}

/// An error of writing a block: the file failed, or the compression is not known.
pub open spec fn block_error(e: Error, compression: u8) -> bool {
    ||| e is Io && is_known(compression)
    ||| e == Error::WriterCompression && !is_known(compression)
}

/// Whether compressing a column of a paged bucket fails.
pub open spec fn pages_fail(set: Settings, dts: Seq<DataType>, rows: Seq<Seq<CellView>>) -> bool {
    exists|i: int|
        0 <= i < dts.len() && blocks::fails(
            image::page_content(#[trigger] dts[i], rows[i], set.limits),
            set.level,
        )
}

/// Whether compressing a bucket fails.
pub open spec fn bucket_fails(set: Settings, dts: Seq<DataType>, rows: Seq<Seq<CellView>>) -> bool {
    &&& set.compression == COMPRESSION_ZSTD
    &&& image::is_stored(rows)
    &&& if image::is_paged(set, dts, rows) {
        pages_fail(set, dts, rows)
    } else {
        blocks::fails(encoding::bucket_bytes(dts, rows, set.limits), set.level)
    }
}

/// Whether a compression is known.
pub open spec fn is_known(compression: u8) -> bool {
    compression == COMPRESSION_NONE || compression == COMPRESSION_ZSTD
}

/// What the block of a column holds in a paged bucket.
fn build_page_content(
    paged: &PagedBucketOutput,
    i: usize,
    Ghost(dts): Ghost<Seq<DataType>>,
    Ghost(rows): Ghost<Seq<Seq<CellView>>>,
    Ghost(limits): Ghost<Limits>,
) -> (content: Vec<u8>)
    requires
        paged.represents(dts, rows, limits),
        i < dts.len(),
    ensures
        content@ == image::page_content(dts[i as int], rows[i as int], limits),
{
    let mut content: Vec<u8> = Vec::new();
    content.push(paged.encodings[i]);
    content.push(
        if paged.has_nulls[i] {
            1
        } else {
            0
        },
    );
    bytes::append_bytes(&mut content, &paged.const_data[i]);
    assert(bucket_writer::page_view(paged.column_pages@[i as int]) == encoding::page(
        dts[i as int],
        rows[i as int],
        limits,
    ));
    if let Some(page) = &paged.column_pages[i] {
        bytes::append_bytes(&mut content, page);
    }
    assert(content@ =~= image::page_content(dts[i as int], rows[i as int], limits));
    content
}

/// The slots of a paged bucket.
fn build_slots(
    paged: &PagedBucketOutput,
    zstd_level: i32,
    Ghost(set): Ghost<Settings>,
    Ghost(dts): Ghost<Seq<DataType>>,
    Ghost(rows): Ghost<Seq<Seq<CellView>>>,
) -> (r: Result<Vec<Vec<u8>>, Error>)
    requires
        paged.represents(dts, rows, set.limits),
        set.level == zstd_level,
    ensures
        match r {
            Ok(slots) => {
                &&& bucket_writer::byte_views(slots@) == image::slots(set, dts, rows)
                &&& forall|i: int|
                    0 <= i < dts.len() && slots@[i]@.len() <= u32::MAX ==> image::faithful_slot(
                        set,
                        #[trigger] dts[i],
                        rows[i],
                    )
            },
            Err(e) => (e == Error::Compress && pages_fail(set, dts, rows)) || (e
                == Error::SizeOverflow && exists|i: int|
                0 <= i < dts.len() && image::page_content(
                    #[trigger] dts[i],
                    rows[i],
                    set.limits,
                ).len() > u32::MAX),
        },
{
    let n: usize = paged.encodings.len();
    let mut slots: Vec<Vec<u8>> = Vec::new();
    let mut i: usize = 0;
    while i < n
        invariant
            i <= n == dts.len(),
            n == paged.encodings@.len(),
            paged.represents(dts, rows, set.limits),
            set.level == zstd_level,
            slots@.len() == i,
            forall|j: int|
                0 <= j < i ==> (#[trigger] slots@[j])@ == image::slot(set, dts[j], rows[j]),
            forall|j: int|
                0 <= j < i && slots@[j]@.len() <= u32::MAX ==> image::faithful_slot(
                    set,
                    #[trigger] dts[j],
                    rows[j],
                ),
        decreases n - i,
    {
        assert(paged.encodings@[i as int] == encoding::kind(
            dts[i as int],
            rows[i as int],
            set.limits,
        ));
        if paged.encodings[i] == ENCODING_ALL_NULL {
            slots.push(Vec::new());
        } else {
            let content: Vec<u8> = build_page_content(
                paged,
                i,
                Ghost(dts),
                Ghost(rows),
                Ghost(set.limits),
            );
            let compressed: Vec<u8> = match blocks::deflate(&content, zstd_level) {
                Err(e) => {
                    assert(blocks::fails(
                        image::page_content(dts[i as int], rows[i as int], set.limits),
                        set.level,
                    ));
                    return Err(e);
                },
                Ok(v) => v,
            };
            let size: u32 = match layout::to_u32(content.len()) {
                Err(e) => {
                    assert(image::page_content(
                        dts[i as int],
                        rows[i as int],
                        set.limits,
                    ).len() > u32::MAX);
                    return Err(e);
                },
                Ok(v) => v,
            };
            let mut slot: Vec<u8> = Vec::new();
            varint::encode(&mut slot, size);
            bytes::append_bytes(&mut slot, &compressed);
            assert(slot@ =~= image::slot(set, dts[i as int], rows[i as int]));
            slots.push(slot);
        }
        i = i + 1;
    }
    assert(bucket_writer::byte_views(slots@) =~= image::slots(set, dts, rows));
    Ok(slots)
}

/// Writes the sizes of the slots of a paged bucket.
fn write_directory<S: OutputFile>(out: &mut S, slots: &Vec<Vec<u8>>) -> (r: Result<(), Error>)
    ensures
        old(out).written().is_prefix_of(final(out).written()),
        match r {
            Ok(()) => {
                &&& final(out).written() == old(out).written() + encoding::flat(
                    image::size_parts(bucket_writer::byte_views(slots@)),
                )
                &&& forall|i: int|
                    0 <= i < slots@.len() ==> (#[trigger] slots@[i])@.len() <= u32::MAX
            },
            Err(e) => e is Io || (e == Error::SizeOverflow && exists|i: int|
                0 <= i < slots@.len() && (#[trigger] slots@[i])@.len() > u32::MAX),
        },
        is_fair(*old(out), *final(out), r),
{
    let ghost start = out.written();
    let ghost parts = image::size_parts(bucket_writer::byte_views(slots@));
    let mut i: usize = 0;
    proof {
        bucket_writer::lemma_take_none(start, parts);
    }
    while i < slots.len()
        invariant
            i <= slots@.len(),
            start == old(out).written(),
            parts == image::size_parts(bucket_writer::byte_views(slots@)),
            out.written() == start + encoding::flat(parts.take(i as int)),
            old(out).dependable() ==> out.dependable(),
            forall|j: int| 0 <= j < i ==> (#[trigger] slots@[j])@.len() <= u32::MAX,
        decreases slots@.len() - i,
    {
        let size: u32 = match layout::to_u32(slots[i].len()) {
            Err(e) => {
                return Err(e);
            },
            Ok(v) => v,
        };
        let mut field: Vec<u8> = Vec::new();
        bytes::write_le4(&mut field, size);
        assert(field@ =~= parts[i as int]);
        let ghost before = out.written();
        match out.write(&field) {
            Err(e) => {
                return Err(e);
            },
            Ok(()) => {},
        }
        proof {
            bucket_writer::lemma_take_next(start, parts, i as int, out.written());
        }
        i = i + 1;
    }
    assert(parts.take(i as int) =~= parts);
    Ok(())
}

/// Writes the slots of a paged bucket.
fn write_slots<S: OutputFile>(out: &mut S, slots: &Vec<Vec<u8>>) -> (r: Result<(), Error>)
    ensures
        old(out).written().is_prefix_of(final(out).written()),
        match r {
            Ok(()) => final(out).written() == old(out).written() + encoding::flat(
                bucket_writer::byte_views(slots@),
            ),
            Err(e) => e is Io,
        },
        is_fair(*old(out), *final(out), r),
{
    let ghost start = out.written();
    let ghost parts = bucket_writer::byte_views(slots@);
    let mut i: usize = 0;
    proof {
        bucket_writer::lemma_take_none(start, parts);
    }
    while i < slots.len()
        invariant
            i <= slots@.len(),
            start == old(out).written(),
            parts == bucket_writer::byte_views(slots@),
            out.written() == start + encoding::flat(parts.take(i as int)),
            old(out).dependable() ==> out.dependable(),
        decreases slots@.len() - i,
    {
        let ghost before = out.written();
        if slots[i].len() > 0 {
            match out.write(&slots[i]) {
                Err(e) => {
                    return Err(e);
                },
                Ok(()) => {},
            }
        } else {
            assert(before =~= before + parts[i as int]);
        }
        proof {
            bucket_writer::lemma_take_next(start, parts, i as int, out.written());
        }
        i = i + 1;
    }
    assert(parts.take(i as int) =~= parts);
    Ok(())
}

/// Writes a bucket column by column.
fn write_paged_bucket<S: OutputFile>(
    out: &mut S,
    paged: &PagedBucketOutput,
    zstd_level: i32,
    Ghost(set): Ghost<Settings>,
    Ghost(dts): Ghost<Seq<DataType>>,
    Ghost(rows): Ghost<Seq<Seq<CellView>>>,
) -> (r: Result<usize, Error>)
    requires
        paged.represents(dts, rows, set.limits),
        set.level == zstd_level,
    ensures
        old(out).written().is_prefix_of(final(out).written()),
        match r {
            Ok(n) => {
                &&& n == image::paged_bytes(set, dts, rows).len()
                &&& final(out).written() == old(out).written() + image::paged_bytes(
                    set,
                    dts,
                    rows,
                )
                &&& forall|i: int|
                    0 <= i < dts.len() ==> image::faithful_slot(set, #[trigger] dts[i], rows[i])
            },
            Err(e) => e is Io || (e == Error::Compress && pages_fail(set, dts, rows)) || (e
                == Error::SizeOverflow && (
            image::paged_bytes(set, dts, rows).len() > u32::MAX || exists|i: int|
                0 <= i < dts.len() && (image::page_content(
                    #[trigger] dts[i],
                    rows[i],
                    set.limits,
                ).len() > u32::MAX || image::slot(set, dts[i], rows[i]).len() > u32::MAX))),
        },
        is_fair(*old(out), *final(out), r),
{
    let ghost begin = out.written();
    let start: u64 = out.pos();
    let slots: Vec<Vec<u8>> = match build_slots(
        paged,
        zstd_level,
        Ghost(set),
        Ghost(dts),
        Ghost(rows),
    ) {
        Err(e) => {
            return Err(e);
        },
        Ok(v) => v,
    };
    let ghost parts = image::slots(set, dts, rows);
    proof {
        let views = bucket_writer::byte_views(slots@);
        assert(slots@.len() == views.len() == parts.len());
        assert forall|i: int| 0 <= i < slots@.len() implies (#[trigger] slots@[i])@
            == image::slot(set, dts[i], rows[i]) by {
            assert(views[i] == parts[i]);
        }
    }
    match write_directory(out, &slots) {
        Err(e) => {
            proof {
                if e == Error::SizeOverflow {
                    let i = choose|i: int|
                        0 <= i < slots@.len() && (#[trigger] slots@[i])@.len() > u32::MAX;
                    assert(image::slot(set, dts[i], rows[i]).len() > u32::MAX);
                }
            }
            return Err(e);
        },
        Ok(()) => {},
    }
    match write_slots(out, &slots) {
        Err(e) => {
            return Err(e);
        },
        Ok(()) => {},
    }
    assert(out.written() =~= begin + image::paged_bytes(set, dts, rows));
    let total: u64 = out.pos() - start;
    if total > usize::MAX as u64 {
        return Err(Error::SizeOverflow);
    }
    Ok(total as usize)
}

/// How many pages a bucket has, and their size.
fn measure_pages(
    paged: &PagedBucketOutput,
    Ghost(dts): Ghost<Seq<DataType>>,
    Ghost(rows): Ghost<Seq<Seq<CellView>>>,
    Ghost(limits): Ghost<Limits>,
) -> (r: (u64, u128))
    requires
        paged.represents(dts, rows, limits),
    ensures
        r.0 == image::page_count(image::pages(dts, rows, limits)),
        r.1 == image::page_total(image::pages(dts, rows, limits)),
{
    let ghost ps = image::pages(dts, rows, limits);
    let mut count: u64 = 0;
    let mut total: u128 = 0;
    let mut i: usize = 0;
    assert(ps.take(0) =~= Seq::<Option<Seq<u8>>>::empty());
    while i < paged.column_pages.len()
        invariant
            i <= paged.column_pages@.len() == ps.len(),
            paged.represents(dts, rows, limits),
            ps == image::pages(dts, rows, limits),
            count <= i,
            total <= i * 0xFFFF_FFFF_FFFF_FFFFu128,
            count == image::page_count(ps.take(i as int)),
            total == image::page_total(ps.take(i as int)),
        decreases paged.column_pages@.len() - i,
    {
        proof {
            assert(ps.take(i + 1).drop_last() =~= ps.take(i as int));
            assert(ps.take(i + 1).last() == ps[i as int]);
            assert(bucket_writer::page_view(paged.column_pages@[i as int]) == ps[i as int]);
        }
        if let Some(page) = &paged.column_pages[i] {
            count = count + 1;
            total = total + page.len() as u128;
        }
        i = i + 1;
    }
    assert(ps.take(i as int) =~= ps);
    (count, total)
}

/// A size, or the largest number of 64 bits where it exceeds that.
pub open spec fn saturated(n: int) -> u64 {
    if n > u64::MAX {
        u64::MAX
    } else {
        n as u64
    }
}

/// Writes a bucket.
fn write_bucket<S: OutputFile>(
    out: &mut S,
    bw: &BucketWriter,
    compression: u8,
    zstd_level: i32,
    threshold: usize,
    Ghost(set): Ghost<Settings>,
) -> (r: Result<(BucketLayout, u64), Error>)
    requires
        bw.well_formed(),
        bw.types().len() > 0,
        set == (Settings {
            compression,
            level: zstd_level as int,
            limits: bw.limits(),
            threshold: threshold as nat,
        }),
    ensures
        old(out).written().is_prefix_of(final(out).written()),
        match r {
            Ok((l, size)) => {
                &&& size == saturated(image::raw_size(set, bw.types(), bw.rows()) as int)
                &&& l@ == image::bucket_layout(set, bw.types(), bw.rows())
                &&& final(out).written() == old(out).written() + image::bucket_image(
                    set,
                    bw.types(),
                    bw.rows(),
                )
                &&& image::faithful_bucket(set, bw.types(), bw.rows())
            },
            Err(e) => block_error(e, compression) || (e == Error::Compress && bucket_fails(
                set,
                bw.types(),
                bw.rows(),
            )) || (e == Error::SizeOverflow && (image::bucket_image(set, bw.types(), bw.rows()).len() > u32::MAX
                || image::oversized_bucket(set, bw.types(), bw.rows()))),
        },
        is_fair(*old(out), *final(out), r),
        !is_known(compression) ==> *final(out) == *old(out),
        !is_known(compression) ==> (r is Err <==> bw.row_count() > 0),
        !is_known(compression) && r is Err ==> r->Err_0 == Error::WriterCompression,
{
    let ghost dts = bw.types();
    let ghost rows = bw.rows();
    proof {
        bw.lemma_well_formed();
        assert(rows[0].len() == bw.row_count());
    }
    if bw.is_empty() {
        assert(out.written() =~= out.written() + Seq::<u8>::empty());
        return Ok((BucketLayout::Empty, 0));
    }
    if compression == COMPRESSION_ZSTD && bw.estimated_raw_size() >= threshold {
        let paged: PagedBucketOutput = bw.finish_paged();
        let (count, total): (u64, u128) = measure_pages(
            &paged,
            Ghost(dts),
            Ghost(rows),
            Ghost(set.limits),
        );
        if count > 0 && total / count as u128 >= threshold as u128 {
            assert(image::is_paged(set, dts, rows));
            let size: u64 = if total > u64::MAX as u128 {
                u64::MAX
            } else {
                total as u64
            };
            return match write_paged_bucket(
                out,
                &paged,
                zstd_level,
                Ghost(set),
                Ghost(dts),
                Ghost(rows),
            ) {
                Err(e) => Err(e),
                Ok(total_size) => Ok((BucketLayout::Paged { total_size }, size)),
            };
        }
    }
    let raw: Vec<u8> = bw.finish();
    match write_compressed(out, compression, zstd_level, &raw) {
        Err(e) => Err(e),
        Ok(compressed_size) => Ok(
            (
                BucketLayout::Monolithic { compressed_size, uncompressed_size: raw.len() },
                raw.len() as u64,
            ),
        ),
    }
}

/// What a writer is about to write and what it has written.
#[verifier::ext_equal]
pub struct WriterState {
    pub schema: SchemaView,
    pub settings: Settings,
    pub max_size: u64,
    /// The rows of the row group that is being filled.
    pub data: GroupData,
    /// An estimate of their size.
    pub buffered: u64,
    /// The size of all row groups before and after compression.
    pub totals: (u64, u64),
    pub groups: Seq<GroupView>,
    /// The rows of the row groups that were written.
    pub history: Seq<GroupData>,
    pub closed: bool,
}

/// The writer with some rows more.
pub open spec fn with_batch(st: WriterState, cols: Seq<Seq<CellView>>, num_rows: nat) -> WriterState {
    WriterState {
        data: image::with_rows(st.schema, st.data, cols, num_rows),
        buffered: saturated(
            (st.buffered + image::buckets_size(
                st.schema,
                cols,
                num_rows,
                st.schema.num_buckets,
            )) as int,
        ),
        ..st
    }
}

/// Which columns statistics are kept for.
pub open spec fn watched(d: GroupData) -> Seq<nat> {
    Seq::new(d.stats.len(), |i: int| d.stats[i].column_index)
}

/// The bytes of the row group that is being filled.
pub open spec fn pending(st: WriterState) -> Seq<u8> {
    encoding::flat(image::images(st.settings, st.schema, st.data))
}

/// The writer with its rows written as a row group that starts at `base`.
pub open spec fn flushed(st: WriterState, base: int) -> WriterState {
    WriterState {
        data: image::no_data(st.schema, watched(st.data)),
        buffered: 0,
        totals: (
            saturated(
                (st.totals.0 + image::raw_total(
                    st.settings,
                    st.schema,
                    st.data,
                    st.schema.num_buckets,
                )) as int,
            ),
            saturated((st.totals.1 + pending(st).len()) as int),
        ),
        groups: st.groups.push(image::group_view(st.settings, st.schema, st.data, base)),
        history: st.history.push(st.data),
        ..st
    }
}

/// An error of writing the row group that is being filled: of one of its blocks, or
/// of a size that does not fit in its field.
pub open spec fn flush_error(e: Error, st: WriterState) -> bool {
    ||| block_error(e, st.settings.compression)
    ||| e == Error::Compress && group_fails(st)
    ||| e == Error::SizeOverflow && is_known(st.settings.compression) && !is_storable(st)
}

/// Whether compressing one of the buckets of the row group that is being filled fails.
pub open spec fn group_fails(st: WriterState) -> bool {
    exists|b: int|
        0 <= b < st.schema.num_buckets && bucket_fails(
            st.settings,
            #[trigger] image::bucket_types(st.schema, b),
            st.data.buckets[b],
        )
}

/// Whether there are rows with columns to be written, but not how to compress them.
pub open spec fn is_unknown_group(st: WriterState) -> bool {
    &&& st.data.num_rows > 0
    &&& st.schema.columns.len() > 0
    &&& !is_known(st.settings.compression)
}

/// Whether the sizes of all buckets fit in their fields.
pub open spec fn is_storable(st: WriterState) -> bool {
    forall|b: int|
        0 <= b < st.schema.num_buckets ==> !oversized(
            st.settings,
            #[trigger] image::bucket_types(st.schema, b),
            st.data.buckets[b],
        )
}

/// Whether a bucket has a size that does not fit in its field.
pub open spec fn oversized(set: Settings, dts: Seq<DataType>, rows: Seq<Seq<CellView>>) -> bool {
    image::bucket_image(set, dts, rows).len() > u32::MAX || image::oversized_bucket(set, dts, rows)
}

/// Which columns of a schema are nullable.
pub open spec fn schema_nullable(s: SchemaView) -> Seq<bool> {
    Seq::new(s.columns.len(), |i: int| s.columns[i].field.nullable)
}

/// What is wrong with a batch, if anything is.
pub open spec fn batch_error(
    st: WriterState,
    declared: Seq<DataType>,
    cols: Seq<Seq<CellView>>,
    num_rows: nat,
) -> Option<Error> {
    if st.closed {
        Some(Error::WriterClosed)
    } else if cols.len() != st.schema.columns.len() {
        Some(Error::ColumnCount)
    } else if batch::misplaced_null(schema_nullable(st.schema), cols) {
        Some(Error::NonNullable)
    } else {
        match image::buckets_error(st.schema, declared, cols, num_rows, st.schema.num_buckets) {
            Some(e) => Some(e),
            None => if st.data.num_rows + num_rows > usize::MAX {
                Some(Error::SizeOverflow)
            } else {
                None
            },
        }
    }
}

/// A closed writer, a batch of another number of columns, and a null in a column that is
/// not nullable are refused as invalid input.
pub proof fn lemma_invalid_input(
    st: WriterState,
    declared: Seq<DataType>,
    cols: Seq<Seq<CellView>>,
    num_rows: nat,
)
    requires
        st.closed || cols.len() != st.schema.columns.len() || batch::misplaced_null(
            schema_nullable(st.schema),
            cols,
        ),
    ensures
        batch_error(st, declared, cols, num_rows) is Some,
        batch_error(st, declared, cols, num_rows)->0.spec_kind() == ErrorKind::InvalidInput,
{
}

proof fn lemma_column_error_kind(dt: DataType, rows: Seq<CellView>)
    ensures
        bucket_writer::column_error(dt, rows) is Some ==> bucket_writer::column_error(
            dt,
            rows,
        )->0.spec_kind() == ErrorKind::InvalidInput,
    decreases rows.len(),
{
    if rows.len() > 0 {
        lemma_column_error_kind(dt, rows.drop_last());
    }
}

proof fn lemma_columns_error_kind(dts: Seq<DataType>, rows: Seq<Seq<CellView>>)
    ensures
        bucket_writer::columns_error(dts, rows) is Some ==> bucket_writer::columns_error(
            dts,
            rows,
        )->0.spec_kind() == ErrorKind::InvalidInput,
    decreases rows.len(),
{
    if rows.len() > 0 {
        lemma_columns_error_kind(dts, rows.drop_last());
        lemma_column_error_kind(dts[rows.len() - 1], rows.last());
    }
}

proof fn lemma_buckets_error_kind(
    s: SchemaView,
    declared: Seq<DataType>,
    cols: Seq<Seq<CellView>>,
    num_rows: nat,
    n: nat,
)
    ensures
        image::buckets_error(s, declared, cols, num_rows, n) is Some ==> image::buckets_error(
            s,
            declared,
            cols,
            num_rows,
            n,
        )->0.spec_kind() == ErrorKind::InvalidInput,
    decreases n,
{
    if n > 0 {
        lemma_buckets_error_kind(s, declared, cols, num_rows, (n - 1) as nat);
        let dts = image::bucket_types(s, n - 1);
        let part = image::bucket_part(s, cols, n - 1);
        let k = if num_rows == 0 {
            dts.len()
        } else {
            image::agreeing(dts, image::bucket_declared(s, declared, n - 1), dts.len())
        };
        lemma_columns_error_kind(dts, part.take(k as int));
    }
}

/// Whatever is wrong with a batch, it is refused as invalid input.
pub proof fn lemma_refused_as_invalid(
    st: WriterState,
    declared: Seq<DataType>,
    cols: Seq<Seq<CellView>>,
    num_rows: nat,
)
    requires
        batch_error(st, declared, cols, num_rows) is Some,
    ensures
        batch_error(st, declared, cols, num_rows)->0.spec_kind() == ErrorKind::InvalidInput,
{
    lemma_buckets_error_kind(st.schema, declared, cols, num_rows, st.schema.num_buckets);
}

/// A batch with rows, one column of which is declared with a type of other cells than
/// the schema has there, is refused even where the column holds only nulls.
pub proof fn lemma_mistyped_refused(
    st: WriterState,
    declared: Seq<DataType>,
    cols: Seq<Seq<CellView>>,
    num_rows: nat,
    c: int,
)
    requires
        st.schema.writable(),
        num_rows > 0,
        0 <= c < st.schema.columns.len(),
        !types::same_cells(st.schema.columns[c].field.data_type, declared[c]),
    ensures
        batch_error(st, declared, cols, num_rows) is Some,
{
    let s = st.schema;
    assert(schema::writable_column(s.columns[c], s.num_buckets));
    let b = s.columns[c].bucket_id;
    let members = image::bucket_members(s, b as int);
    let dts = image::bucket_types(s, b as int);
    let types = image::bucket_declared(s, declared, b as int);
    schema::lemma_members(s.columns, b, s.columns.len());
    assert(members.contains(c as usize));
    let k = members.index_of(c as usize);
    assert(members[k] == c);
    lemma_agreeing_before(dts, types, k as nat, dts.len());
    let n = (b + 1) as nat;
    assert(image::buckets_error(s, declared, cols, num_rows, n) is Some);
    lemma_first_error(s, declared, cols, num_rows, n, s.num_buckets);
}

/// Those that agree come before any that does not.
proof fn lemma_agreeing_before(dts: Seq<DataType>, declared: Seq<DataType>, k: nat, n: nat)
    requires
        k < n,
        !types::same_cells(dts[k as int], declared[k as int]),
    ensures
        image::agreeing(dts, declared, n) <= k,
    decreases n,
{
    lemma_agreeing_bound(dts, declared, (n - 1) as nat);
    if n > k + 1 {
        lemma_agreeing_before(dts, declared, k, (n - 1) as nat);
    }
}

/// Those of the first `n` columns in a list that the schema has and that statistics
/// are kept for.
pub open spec fn chosen(s: SchemaView, cols: Seq<usize>, n: nat) -> Seq<nat>
    decreases n,
{
    if n == 0 {
        Seq::empty()
    } else {
        let before = chosen(s, cols, (n - 1) as nat);
        let c = cols[n - 1] as int;
        if c < s.columns.len() && stats::supported(s.columns[c].field.data_type) {
            before.push(c as nat)
        } else {
            before
        }
    }
}

/// The state of a new writer. Dictionaries never have more entries than 32 bits can
/// count.
pub open spec fn initial(s: SchemaView, options: WriterOptions) -> WriterState {
    WriterState {
        schema: s,
        settings: Settings {
            compression: options.compression,
            level: options.zstd_level as int,
            limits: Limits {
                total_bytes: options.max_dict_total_bytes as nat,
                entries: bucket_writer::entry_limit(options.max_dict_entries as nat),
            },
            threshold: options.page_size_threshold as nat,
        },
        max_size: options.row_group_max_size,
        data: image::no_data(
            s,
            chosen(s, options.stats_columns@, options.stats_columns@.len()),
        ),
        buffered: 0,
        totals: (0, 0),
        groups: Seq::empty(),
        history: Seq::empty(),
        closed: false,
    }
}

/// The cells of a bucket that may have no columns.
spec fn bucket_rows(w: Option<BucketWriter>) -> Seq<Seq<CellView>> {
    match w {
        Some(bw) => bw.rows(),
        None => Seq::empty(),
    }
}

spec fn all_rows(ws: Seq<Option<BucketWriter>>) -> Seq<Seq<Seq<CellView>>> {
    Seq::new(ws.len(), |b: int| bucket_rows(ws[b]))
}

/// A writer for bucket `b`.
spec fn writer_ok(w: Option<BucketWriter>, s: SchemaView, limits: Limits, b: int) -> bool {
    match w {
        Some(bw) => {
            &&& bw.well_formed()
            &&& bw.types() == image::bucket_types(s, b)
            &&& bw.limits() == limits
            &&& bw.types().len() > 0
        },
        None => image::bucket_members(s, b).len() == 0,
    }
}

spec fn writers_ok(ws: Seq<Option<BucketWriter>>, s: SchemaView, limits: Limits) -> bool {
    &&& ws.len() == s.num_buckets
    &&& forall|b: int| 0 <= b < ws.len() ==> writer_ok(#[trigger] ws[b], s, limits, b)
}

/// All buckets with columns have `n` rows.
spec fn counted(ws: Seq<Option<BucketWriter>>, n: nat) -> bool {
    forall|b: int| 0 <= b < ws.len() && #[trigger] ws[b] is Some ==> ws[b]->0.row_count() == n
}

/// A schema with columns has a bucket with columns.
proof fn lemma_has_bucket(ws: Seq<Option<BucketWriter>>, s: SchemaView, limits: Limits)
    requires
        writers_ok(ws, s, limits),
        s.writable(),
        s.columns.len() > 0,
    ensures
        exists|b: int| 0 <= b < ws.len() && #[trigger] ws[b] is Some,
{
    assert(schema::writable_column(s.columns[0], s.num_buckets));
    let b = s.columns[0].bucket_id;
    schema::lemma_members(s.columns, b, s.columns.len());
    assert(writer_ok(ws[b as int], s, limits, b as int));
    assert(image::bucket_members(s, b as int).contains(0));
}

/// A collector for columns of the schema that has seen at most `num_rows` rows.
spec fn collector_ok(c: StatsCollector, s: SchemaView, num_rows: nat) -> bool {
    &&& c.types().len() == c.stats().len()
    &&& c.stats().len() <= u32::MAX
    &&& forall|i: int|
        0 <= i < c.stats().len() ==> {
            let t = #[trigger] c.stats()[i];
            &&& t.column_index < s.columns.len()
            &&& c.types()[i] == s.columns[t.column_index as int].field.data_type
            &&& t.null_count <= num_rows
            &&& stats::sound_stat(c.types()[i], t)
        }
}

/// Writes the buckets of a row group. Returns where they start, how they are
/// stored, and both totals with the sizes of the buckets added.
fn write_buckets<S: OutputFile>(
    out: &mut S,
    writers: &Vec<Option<BucketWriter>>,
    compression: u8,
    zstd_level: i32,
    threshold: usize,
    totals: (u64, u64),
    Ghost(st): Ghost<WriterState>,
) -> (r: Result<(Vec<u64>, Vec<BucketLayout>, (u64, u64)), Error>)
    requires
        writers_ok(writers@, st.schema, st.settings.limits),
        st.settings.compression == compression,
        st.settings.level == zstd_level,
        st.settings.threshold == threshold,
        st.data.buckets == all_rows(writers@),
        st.totals == totals,
    ensures
        old(out).written().is_prefix_of(final(out).written()),
        match r {
            Ok((offsets, layouts, sums)) => {
                &&& offsets@ == image::offsets(
                    st.settings,
                    st.schema,
                    st.data,
                    old(out).written().len() as int,
                )
                &&& layout::layout_views(layouts@) == image::layouts(
                    st.settings,
                    st.schema,
                    st.data,
                )
                &&& sums == flushed(st, 0).totals
                &&& final(out).written() == old(out).written() + pending(st)
                &&& final(out).written().len() <= u64::MAX
                &&& image::faithful_group(st.settings, st.schema, st.data)
            },
            Err(e) => flush_error(e, st),
        },
        is_fair(*old(out), *final(out), r),
        !is_known(compression) ==> *final(out) == *old(out),
        !is_known(compression) && (exists|b: int|
            0 <= b < writers@.len() && #[trigger] writers@[b] is Some
                && writers@[b]->0.row_count() > 0) ==> r is Err && r->Err_0
            == Error::WriterCompression,
{
    let ghost start = out.written();
    let ghost parts = image::images(st.settings, st.schema, st.data);
    let ghost set = st.settings;
    let n: usize = writers.len();
    let mut offsets: Vec<u64> = Vec::new();
    let mut layouts: Vec<BucketLayout> = Vec::new();
    let mut uncompressed: u64 = totals.0;
    let mut compressed: u64 = totals.1;
    let mut offset: u64 = out.pos();
    let mut b: usize = 0;
    proof {
        bucket_writer::lemma_take_none(start, parts);
    }
    while b < n
        invariant
            b <= n == writers@.len(),
            start == old(out).written(),
            set == st.settings,
            parts == image::images(st.settings, st.schema, st.data),
            writers_ok(writers@, st.schema, st.settings.limits),
            st.settings.compression == compression,
            st.settings.level == zstd_level,
            st.settings.threshold == threshold,
            st.data.buckets == all_rows(writers@),
            st.totals == totals,
            offsets@.len() == b,
            layouts@.len() == b,
            old(out).dependable() ==> out.dependable(),
            !is_known(compression) ==> *out == *old(out),
            !is_known(compression) ==> forall|c: int|
                0 <= c < b && #[trigger] writers@[c] is Some ==> writers@[c]->0.row_count() == 0,
            out.written() == start + encoding::flat(parts.take(b as int)),
            offset == out.written().len(),
            forall|c: int|
                0 <= c < b ==> (#[trigger] layouts@[c])@ == image::bucket_layout(
                    set,
                    image::bucket_types(st.schema, c),
                    st.data.buckets[c],
                ),
            forall|c: int|
                0 <= c < b ==> #[trigger] offsets@[c] == (if layouts@[c]@ == LayoutView::Empty {
                    0u64
                } else {
                    (start.len() + encoding::flat(parts.take(c)).len()) as u64
                }),
            forall|c: int|
                0 <= c < b ==> image::faithful_bucket(
                    set,
                    #[trigger] image::bucket_types(st.schema, c),
                    st.data.buckets[c],
                ),
            uncompressed == saturated(
                (totals.0 + image::raw_total(set, st.schema, st.data, b as nat)) as int,
            ),
            compressed == saturated(
                (totals.1 + encoding::flat(parts.take(b as int)).len()) as int,
            ),
        decreases n - b,
    {
        let ghost before = out.written();
        let ghost dts = image::bucket_types(st.schema, b as int);
        let ghost rows = st.data.buckets[b as int];
        assert(writer_ok(writers@[b as int], st.schema, set.limits, b as int));
        match &writers[b] {
            Some(bw) => {
                match write_bucket(out, bw, compression, zstd_level, threshold, Ghost(set)) {
                    Err(e) => {
                        proof {
                            assert(e == Error::SizeOverflow ==> oversized(set, dts, rows));
                            assert(e == Error::SizeOverflow ==> !is_storable(st));
                            assert(e == Error::Compress ==> bucket_fails(set, dts, rows));
                            assert(e == Error::Compress ==> group_fails(st));
                        }
                        return Err(e);
                    },
                    Ok((l, size)) => {
                        offsets.push(
                            match l {
                                BucketLayout::Empty => 0,
                                _ => offset,
                            },
                        );
                        layouts.push(l);
                        uncompressed = uncompressed.saturating_add(size);
                    },
                }
            },
            None => {
                offsets.push(0);
                layouts.push(BucketLayout::Empty);
                assert(before =~= before + parts[b as int]);
            },
        }
        let end: u64 = out.pos();
        compressed = compressed.saturating_add(end - offset);
        offset = end;
        proof {
            bucket_writer::lemma_take_next(start, parts, b as int, out.written());
        }
        b = b + 1;
    }
    proof {
        assert(parts.take(b as int) =~= parts);
        assert(layout::layout_views(layouts@) =~= image::layouts(set, st.schema, st.data));
        assert(offsets@ =~= image::offsets(set, st.schema, st.data, start.len() as int));
    }
    Ok((offsets, layouts, (uncompressed, compressed)))
}

/// Forgets the rows of all buckets.
fn reset_writers(
    writers: &mut Vec<Option<BucketWriter>>,
    Ghost(s): Ghost<SchemaView>,
    Ghost(limits): Ghost<Limits>,
)
    requires
        writers_ok(old(writers)@, s, limits),
    ensures
        writers_ok(final(writers)@, s, limits),
        counted(final(writers)@, 0),
        all_rows(final(writers)@) == image::no_data(s, Seq::empty()).buckets,
{
    let n: usize = writers.len();
    let ghost goal = image::no_data(s, Seq::empty()).buckets;
    let mut b: usize = 0;
    while b < n
        invariant
            b <= n == writers@.len(),
            writers_ok(writers@, s, limits),
            goal == image::no_data(s, Seq::empty()).buckets,
            forall|c: int| 0 <= c < b ==> bucket_rows(#[trigger] writers@[c]) == goal[c],
            counted(writers@.take(b as int), 0),
        decreases n - b,
    {
        assert(writer_ok(writers@[b as int], s, limits, b as int));
        let ghost before = writers@;
        if let Some(bw) = &mut writers[b] {
            bw.reset();
        }
        proof {
            assert(forall|c: int| 0 <= c < n && c != b ==> #[trigger] writers@[c] == before[c]);
            assert(bucket_rows(writers@[b as int]) =~= goal[b as int]);
            assert forall|c: int| 0 <= c < writers@.len() implies writer_ok(
                #[trigger] writers@[c],
                s,
                limits,
                c,
            ) by {
                if c != b {
                    assert(writer_ok(before[c], s, limits, c));
                }
            }
            assert forall|c: int|
                0 <= c < b + 1 && #[trigger] writers@.take(b + 1)[c] is Some implies writers@.take(
                b + 1,
            )[c]->0.row_count() == 0 by {
                if c < b {
                    assert(before.take(b as int)[c] == before[c]);
                }
            }
        }
        b = b + 1;
    }
    assert(writers@.take(n as int) =~= writers@);
    assert(all_rows(writers@) =~= goal);
}

/// Writes batches of rows as row groups.
pub struct MosaicWriter<S: OutputFile> {
    out: S,
    schema: MosaicSchema,
    bucket_writers: Vec<Option<BucketWriter>>,
    compression: u8,
    zstd_level: i32,
    row_group_max_size: u64,
    page_size_threshold: usize,
    max_dict_total_bytes: usize,
    max_dict_entries: usize,
    row_group_metas: Vec<RowGroupMeta>,
    current_row_group_rows: usize,
    current_buffered_size: u64,
    total_uncompressed: u64,
    total_compressed: u64,
    stats_collector: Option<StatsCollector>,
    closed: bool,
    history: Ghost<Seq<GroupData>>,
}

impl<S: OutputFile> MosaicWriter<S> {
    /// The file that is written to.
    pub closed spec fn file(&self) -> S {
        self.out
    }

    /// The bytes of the file so far.
    pub open spec fn written(&self) -> Seq<u8> {
        self.file().written()
    }

    spec fn settings(&self) -> Settings {
        Settings {
            compression: self.compression,
            level: self.zstd_level as int,
            limits: Limits {
                total_bytes: self.max_dict_total_bytes as nat,
                entries: self.max_dict_entries as nat,
            },
            threshold: self.page_size_threshold as nat,
        }
    }

    spec fn data(&self) -> GroupData {
        GroupData {
            num_rows: self.current_row_group_rows as nat,
            buckets: all_rows(self.bucket_writers@),
            stats: match self.stats_collector {
                Some(c) => c.stats(),
                None => Seq::empty(),
            },
        }
    }

    /// What the writer is about to write and what it has written.
    pub closed spec fn state(&self) -> WriterState {
        WriterState {
            schema: self.schema@,
            settings: self.settings(),
            max_size: self.row_group_max_size,
            data: self.data(),
            buffered: self.current_buffered_size,
            totals: (self.total_uncompressed, self.total_compressed),
            groups: layout::group_views(self.row_group_metas@),
            history: self.history@,
            closed: self.closed,
        }
    }

    /// The parts of the writer fit together.
    pub closed spec fn well_formed(&self) -> bool {
        &&& self.schema.well_formed()
        &&& self.schema@.writable()
        &&& self.max_dict_entries <= u32::MAX
        &&& writers_ok(self.bucket_writers@, self.schema@, self.settings().limits)
        &&& counted(self.bucket_writers@, self.current_row_group_rows as nat)
        &&& self.stats_collector is Some ==> collector_ok(
            self.stats_collector->0,
            self.schema@,
            self.current_row_group_rows as nat,
        )
        &&& forall|i: int|
            0 <= i < self.row_group_metas@.len() ==> layout::writable_group(
                #[trigger] self.row_group_metas@[i]@,
                schema::column_types(self.schema@.columns),
                self.schema@.num_buckets,
            )
    }

    /// What every well-formed writer satisfies.
    pub proof fn lemma_well_formed(&self)
        requires
            self.well_formed(),
        ensures
            self.state().schema.writable(),
            self.state().settings.limits.entries <= u32::MAX,
    {
    }

    /// Whether the row groups that were written stand in the file.
    pub open spec fn intact(&self) -> bool {
        image::all_placed(
            self.written(),
            self.state().settings,
            self.state().schema,
            self.state().groups,
            self.state().history,
        )
    }
}

/// The writers of all buckets.
fn open_buckets(schema: &MosaicSchema, max_bytes: usize, max_entries: usize) -> (ws: Vec<
    Option<BucketWriter>,
>)
    requires
        schema.well_formed(),
        max_entries <= u32::MAX,
    ensures
        writers_ok(
            ws@,
            schema@,
            (Limits { total_bytes: max_bytes as nat, entries: max_entries as nat }),
        ),
        counted(ws@, 0),
        all_rows(ws@) == image::no_data(schema@, Seq::empty()).buckets,
{
    let ghost limits = Limits { total_bytes: max_bytes as nat, entries: max_entries as nat };
    let ghost goal = image::no_data(schema@, Seq::empty()).buckets;
    let mut ws: Vec<Option<BucketWriter>> = Vec::new();
    let mut b: usize = 0;
    while b < schema.num_buckets
        invariant
            b <= schema.num_buckets,
            schema.well_formed(),
            max_entries <= u32::MAX,
            limits == (Limits { total_bytes: max_bytes as nat, entries: max_entries as nat }),
            goal == image::no_data(schema@, Seq::empty()).buckets,
            ws@.len() == b,
            counted(ws@, 0),
            forall|c: int|
                0 <= c < b ==> writer_ok(#[trigger] ws@[c], schema@, limits, c) && bucket_rows(
                    ws@[c],
                ) == goal[c],
        decreases schema.num_buckets - b,
    {
        let indices: &Vec<usize> = &schema.bucket_to_global[b];
        assert(indices@ == image::bucket_members(schema@, b as int));
        assert(schema.columns.len() == schema@.columns.len());
        proof {
            schema::lemma_members(schema@.columns, b as nat, schema@.columns.len());
        }
        if indices.len() == 0 {
            ws.push(None);
        } else {
            let types: Vec<DataType> = schema.types_of(indices);
            assert(types@ =~= image::bucket_types(schema@, b as int));
            ws.push(Some(BucketWriter::new(&types, max_bytes, max_entries)));
        }
        assert(bucket_rows(ws@[b as int]) =~= goal[b as int]);
        b = b + 1;
    }
    assert(all_rows(ws@) =~= goal);
    ws
}

/// The collector of the statistics of some columns, if there are any.
fn open_collector(schema: &MosaicSchema, columns: &Vec<usize>) -> (c: Option<StatsCollector>)
    requires
        columns@.len() <= u32::MAX,
    ensures
        c is Some ==> collector_ok(c->0, schema@, 0),
        (match c {
            Some(x) => x.stats(),
            None => Seq::empty(),
        }) == image::no_data(schema@, chosen(schema@, columns@, columns@.len())).stats,
{
    let ghost s = schema@;
    let mut list: Vec<(usize, DataType)> = Vec::new();
    let mut i: usize = 0;
    while i < columns.len()
        invariant
            i <= columns@.len(),
            s == schema@,
            list@.len() <= i,
            list@.len() == chosen(s, columns@, i as nat).len(),
            forall|j: int|
                0 <= j < list@.len() ==> {
                    let item = #[trigger] list@[j];
                    &&& item.0 == chosen(s, columns@, i as nat)[j]
                    &&& item.0 < s.columns.len()
                    &&& item.1 == s.columns[item.0 as int].field.data_type
                },
        decreases columns@.len() - i,
    {
        let c: usize = columns[i];
        if c < schema.columns.len() && stats::supports_stats(&schema.columns[c].data_type) {
            list.push((c, schema.columns[c].data_type));
        }
        i = i + 1;
    }
    let ghost goal = image::no_data(s, chosen(s, columns@, columns@.len())).stats;
    if list.len() == 0 {
        assert(goal =~= Seq::<ColumnStatsView>::empty());
        None
    } else {
        let c: StatsCollector = StatsCollector::new(&list);
        assert(c.stats() =~= goal);
        Some(c)
    }
}

impl<S: OutputFile> MosaicWriter<S> {
    /// A writer for rows with the given fields.
    pub fn new(out: S, fields: &Vec<Field>, options: WriterOptions) -> (r: Result<
        MosaicWriter<S>,
        Error,
    >)
        ensures
            fields@.len() > u32::MAX ==> r is Err && r->Err_0 == Error::SizeOverflow,
            fields@.len() <= u32::MAX ==> match schema::fields_error(
                schema::field_views(fields@),
                fields@.len(),
            ) {
                Some(e) => r is Err && r->Err_0 == e,
                None => if options.stats_columns@.len() > u32::MAX {
                    r is Err && r->Err_0 == Error::SizeOverflow
                } else {
                    r is Ok && r->Ok_0.well_formed() && r->Ok_0.intact() && r->Ok_0.file() == out
                        && r->Ok_0.state() == initial(
                        schema::schema_of(
                            schema::field_views(fields@),
                            options.num_buckets as nat,
                        ),
                        options,
                    )
                },
            },
            r is Ok ==> r->Ok_0.state().schema.columns.len() == fields@.len() && forall|i: int|
                0 <= i < fields@.len() ==> (#[trigger] r->Ok_0.state().schema.columns[i]).field
                    == fields@[i]@,
    {
        match MosaicSchema::from_fields(fields, options.num_buckets) {
            Err(e) => Err(e),
            Ok(schema) => {
                if options.stats_columns.len() > u32::MAX as usize {
                    return Err(Error::SizeOverflow);
                }
                proof {
                    schema::lemma_schema_of_writable(
                        schema::field_views(fields@),
                        options.num_buckets as nat,
                    );
                }
                Ok(Self::from_mosaic_schema(out, schema, options))
            },
        }
    }

    /// A writer for rows with the columns of a schema.
    pub fn from_mosaic_schema(out: S, schema: MosaicSchema, options: WriterOptions) -> (w:
        MosaicWriter<S>)
        requires
            schema.well_formed(),
            schema@.writable(),
            options.stats_columns@.len() <= u32::MAX,
        ensures
            w.well_formed(),
            w.intact(),
            w.file() == out,
            w.state() == initial(schema@, options),
    {
        let max_dict_entries: usize = bucket_writer::limit_entries(options.max_dict_entries);
        let bucket_writers: Vec<Option<BucketWriter>> = open_buckets(
            &schema,
            options.max_dict_total_bytes,
            max_dict_entries,
        );
        let stats_collector: Option<StatsCollector> = open_collector(
            &schema,
            &options.stats_columns,
        );
        let w: MosaicWriter<S> = MosaicWriter {
            out,
            schema,
            bucket_writers,
            compression: options.compression,
            zstd_level: options.zstd_level,
            row_group_max_size: options.row_group_max_size,
            page_size_threshold: options.page_size_threshold,
            max_dict_total_bytes: options.max_dict_total_bytes,
            max_dict_entries,
            row_group_metas: Vec::new(),
            current_row_group_rows: 0,
            current_buffered_size: 0,
            total_uncompressed: 0,
            total_compressed: 0,
            stats_collector,
            closed: false,
            history: Ghost(Seq::empty()),
        };
        proof {
            let goal = initial(schema@, options);
            assert(w.state().groups =~= goal.groups);
            assert(w.state().data.buckets =~= goal.data.buckets);
            assert(w.state().data =~= goal.data);
            assert(w.state() =~= goal);
        }
        w
    }

    /// The columns of the file.
    pub fn schema(&self) -> (s: &MosaicSchema)
        ensures
            s@ == self.state().schema,
    {
        &self.schema
    }

    /// The file that is written to.
    pub fn output(&self) -> (o: &S)
        ensures
            *o == self.file(),
    {
        &self.out
    }

    /// The file that is written to. What is done to it does not change what the
    /// writer is about to write.
    pub fn output_mut(&mut self) -> (o: &mut S)
        ensures
            *o == old(self).file(),
            final(self).file() == *final(o),
            final(self).state() == old(self).state(),
            old(self).well_formed() ==> final(self).well_formed(),
    {
        &mut self.out
    }

    /// An estimate of the size of the rows that are waiting.
    pub fn buffered_size(&self) -> (n: u64)
        ensures
            n == self.state().buffered,
    {
        self.current_buffered_size
    }

    /// The sizes of all row groups before and after compression.
    pub fn totals(&self) -> (r: (u64, u64))
        ensures
            r == self.state().totals,
    {
        (self.total_uncompressed, self.total_compressed)
    }

    /// The compression of the file.
    pub fn compression(&self) -> (c: u8)
        ensures
            c == self.state().settings.compression,
    {
        self.compression
    }

    /// Whether the file was closed.
    pub fn is_closed(&self) -> (r: bool)
        ensures
            r == self.state().closed,
    {
        self.closed
    }

    /// How many row groups were written.
    pub fn num_row_groups(&self) -> (n: usize)
        ensures
            n == self.state().groups.len(),
    {
        self.row_group_metas.len()
    }

    /// The statistics of a row group that was written.
    pub fn row_group_stats(&self, rg_index: usize) -> (r: Result<&Vec<ColumnStats>, Error>)
        ensures
            rg_index < self.state().groups.len() ==> r is Ok && stats::stats_views(r->Ok_0@)
                == self.state().groups[rg_index as int].stats,
            rg_index >= self.state().groups.len() ==> r is Err && r->Err_0
                == Error::RowGroupRange,
    {
        if rg_index >= self.row_group_metas.len() {
            return Err(Error::RowGroupRange);
        }
        Ok(&self.row_group_metas[rg_index].stats)
    }

    /// Writes the rows that are waiting as a row group.
    fn flush_row_group(&mut self) -> (r: Result<(), Error>)
        requires
            old(self).well_formed(),
        ensures
            final(self).well_formed(),
            old(self).written().is_prefix_of(final(self).written()),
            old(self).intact() ==> final(self).intact(),
            is_fair(old(self).file(), final(self).file(), r),
            old(self).state().data.num_rows == 0 ==> r is Ok && *final(self) == *old(self),
            is_unknown_group(old(self).state()) ==> r == Err::<(), Error>(Error::WriterCompression)
                && final(self).file() == old(self).file(),
            old(self).state().data.num_rows > 0 ==> match r {
                Ok(()) => {
                    &&& final(self).state() == flushed(
                        old(self).state(),
                        old(self).written().len() as int,
                    )
                    &&& final(self).written() == old(self).written() + pending(old(self).state())
                    &&& image::faithful_group(
                        old(self).state().settings,
                        old(self).state().schema,
                        old(self).state().data,
                    )
                },
                Err(e) => flush_error(e, old(self).state()) && final(self).state() == old(self).state(),
            },
    {
        if self.current_row_group_rows == 0 {
            return Ok(());
        }
        let ghost st = self.state();
        let ghost start = self.written();
        let ghost limits = self.settings().limits;
        let totals: (u64, u64) = (self.total_uncompressed, self.total_compressed);
        proof {
            if is_unknown_group(st) {
                lemma_has_bucket(self.bucket_writers@, self.schema@, limits);
            }
        }
        let (bucket_offsets, bucket_layouts, sums): (
            Vec<u64>,
            Vec<BucketLayout>,
            (u64, u64),
        ) = match write_buckets(
            &mut self.out,
            &self.bucket_writers,
            self.compression,
            self.zstd_level,
            self.page_size_threshold,
            totals,
            Ghost(st),
        ) {
            Err(e) => {
                proof {
                    if old(self).intact() {
                        image::lemma_placed_prefix(
                            start,
                            self.written(),
                            st.settings,
                            st.schema,
                            st.groups,
                            st.history,
                        );
                    }
                }
                return Err(e);
            },
            Ok(v) => v,
        };
        self.total_uncompressed = sums.0;
        self.total_compressed = sums.1;
        reset_writers(&mut self.bucket_writers, Ghost(self.schema@), Ghost(limits));
        let row_stats: Vec<ColumnStats> = match &mut self.stats_collector {
            Some(collector) => collector.finish(),
            None => Vec::new(),
        };
        let meta: RowGroupMeta = RowGroupMeta {
            num_rows: self.current_row_group_rows,
            bucket_offsets,
            bucket_layouts,
            stats: row_stats,
        };
        let ghost g = image::group_view(st.settings, st.schema, st.data, start.len() as int);
        proof {
            assert(stats::stats_views(row_stats@) =~= st.data.stats);
            assert(meta@ =~= g);
        }
        self.row_group_metas.push(meta);
        self.current_row_group_rows = 0;
        self.current_buffered_size = 0;
        proof {
            self.history@ = self.history@.push(st.data);
            let now = self.state();
            let goal = flushed(st, start.len() as int);
            assert(now.groups =~= goal.groups);
            assert(now.data.buckets =~= goal.data.buckets);
            assert(now.data.stats =~= goal.data.stats);
            assert(now.data =~= goal.data);
            assert(now =~= goal);
            if old(self).intact() {
                image::lemma_placed_prefix(
                    start,
                    self.written(),
                    st.settings,
                    st.schema,
                    st.groups,
                    st.history,
                );
                image::lemma_placed(start, st.settings, st.schema, st.data);
            }
        }
        Ok(())
    }
}

/// The columns of a batch that are in a bucket.
fn pick_columns<'a>(batch: &'a RecordBatch, indices: &Vec<usize>) -> (arrays: Vec<&'a Vec<Cell>>)
    requires
        forall|k: int| 0 <= k < indices@.len() ==> #[trigger] indices@[k] < batch.columns@.len(),
    ensures
        arrays@.len() == indices@.len(),
        forall|k: int|
            0 <= k < arrays@.len() ==> *#[trigger] arrays@[k] == batch.columns@[indices@[k] as int],
{
    let mut arrays: Vec<&'a Vec<Cell>> = Vec::new();
    let mut k: usize = 0;
    while k < indices.len()
        invariant
            k <= indices@.len(),
            forall|j: int|
                0 <= j < indices@.len() ==> #[trigger] indices@[j] < batch.columns@.len(),
            arrays@.len() == k,
            forall|j: int|
                0 <= j < k ==> *#[trigger] arrays@[j] == batch.columns@[indices@[j] as int],
        decreases indices@.len() - k,
    {
        arrays.push(&batch.columns[indices[k]]);
        k = k + 1;
    }
    arrays
}

/// The columns of a batch that are in a bucket.
fn bucket_arrays<'a>(
    schema: &MosaicSchema,
    batch: &'a RecordBatch,
    b: usize,
) -> (arrays: Vec<&'a Vec<Cell>>)
    requires
        schema.well_formed(),
        batch.well_formed(),
        batch.columns@.len() == schema.columns@.len(),
        b < schema.num_buckets,
    ensures
        bucket_writer::columns(arrays@) == image::bucket_part(schema@, batch.cells(), b as int),
        arrays@.len() == image::bucket_members(schema@, b as int).len(),
        forall|i: int, j: int|
            0 <= i < arrays@.len() && 0 <= j < arrays@[i]@.len() ==> values::cell_fits(
                #[trigger] arrays@[i]@[j]@,
            ),
        forall|i: int|
            0 <= i < arrays@.len() ==> (#[trigger] arrays@[i])@.len() == batch.num_rows,
{
    let ghost s = schema@;
    let ghost part = image::bucket_part(s, batch.cells(), b as int);
    let indices: &Vec<usize> = &schema.bucket_to_global[b];
    assert(indices@ == image::bucket_members(s, b as int));
    assert(schema.columns.len() == s.columns.len());
    proof {
        schema::lemma_members(s.columns, b as nat, s.columns.len());
    }
    let arrays: Vec<&Vec<Cell>> = pick_columns(batch, indices);
    proof {
        assert(bucket_writer::columns(arrays@) =~= part) by {
            assert forall|k: int| 0 <= k < arrays@.len() implies bucket_writer::columns(
                arrays@,
            )[k] == part[k] by {
                assert(*arrays@[k] == batch.columns@[indices@[k] as int]);
            }
        }
        assert forall|i: int, j: int|
            0 <= i < arrays@.len() && 0 <= j < arrays@[i]@.len() implies values::cell_fits(
            #[trigger] arrays@[i]@[j]@,
        ) by {
            assert(values::cell_fits(batch.columns@[indices@[i] as int]@[j]@));
        }
        assert forall|i: int| 0 <= i < arrays@.len() implies (#[trigger] arrays@[i])@.len()
            == batch.num_rows by {
            assert(*arrays@[i] == batch.columns@[indices@[i] as int]);
        }
    }
    arrays
}

/// How many columns of a bucket come before one that a batch declares with a type of
/// other cells.
fn count_agreeing(schema: &MosaicSchema, batch: &RecordBatch, b: usize) -> (k: usize)
    requires
        schema.well_formed(),
        batch.well_formed(),
        batch.columns@.len() == schema.columns@.len(),
        b < schema.num_buckets,
    ensures
        k == image::agreeing(
            image::bucket_types(schema@, b as int),
            image::bucket_declared(schema@, batch.types(), b as int),
            image::bucket_members(schema@, b as int).len(),
        ),
        k <= image::bucket_members(schema@, b as int).len(),
{
    let ghost s = schema@;
    let ghost dts = image::bucket_types(s, b as int);
    let ghost declared = image::bucket_declared(s, batch.types(), b as int);
    let indices: &Vec<usize> = &schema.bucket_to_global[b];
    assert(indices@ == image::bucket_members(s, b as int));
    assert(schema.columns.len() == s.columns.len());
    proof {
        schema::lemma_members(s.columns, b as nat, s.columns.len());
    }
    let mut k: usize = 0;
    while k < indices.len()
        invariant
            k <= indices@.len(),
            indices@ == image::bucket_members(s, b as int),
            s == schema@,
            dts == image::bucket_types(s, b as int),
            declared == image::bucket_declared(s, batch.types(), b as int),
            batch.fields@.len() == schema.columns@.len(),
            s.columns.len() == schema.columns@.len(),
            forall|i: int| 0 <= i < indices@.len() ==> #[trigger] indices@[i] < s.columns.len(),
            image::agreeing(dts, declared, k as nat) == k,
        decreases indices@.len() - k,
    {
        let i: usize = indices[k];
        assert(dts[k as int] == schema.columns@[i as int].data_type);
        assert(declared[k as int] == batch.fields@[i as int].data_type);
        if !types::has_same_cells(&schema.columns[i].data_type, &batch.fields[i].data_type) {
            proof {
                lemma_agreeing_stops(dts, declared, k as nat, indices@.len());
            }
            return k;
        }
        k = k + 1;
    }
    k
}

proof fn lemma_agreeing_bound(dts: Seq<DataType>, declared: Seq<DataType>, n: nat)
    ensures
        image::agreeing(dts, declared, n) <= n,
    decreases n,
{
    if n > 0 {
        lemma_agreeing_bound(dts, declared, (n - 1) as nat);
    }
}

/// What comes before the first disagreement does not depend on what comes after it.
proof fn lemma_agreeing_stops(dts: Seq<DataType>, declared: Seq<DataType>, k: nat, n: nat)
    requires
        k < n,
        image::agreeing(dts, declared, k) == k,
        !types::same_cells(dts[k as int], declared[k as int]),
    ensures
        image::agreeing(dts, declared, n) == k,
    decreases n,
{
    if n > k + 1 {
        lemma_agreeing_stops(dts, declared, k, (n - 1) as nat);
    }
}

/// Whether all cells of a batch are acceptable.
fn check_columns(
    writers: &Vec<Option<BucketWriter>>,
    schema: &MosaicSchema,
    batch: &RecordBatch,
    Ghost(limits): Ghost<Limits>,
) -> (r: Result<(), Error>)
    requires
        schema.well_formed(),
        writers_ok(writers@, schema@, limits),
        batch.well_formed(),
        batch.columns@.len() == schema.columns@.len(),
    ensures
        match image::buckets_error(
            schema@,
            batch.types(),
            batch.cells(),
            batch.num_rows as nat,
            schema@.num_buckets,
        ) {
            Some(e) => r is Err && r->Err_0 == e,
            None => r is Ok,
        },
{
    let ghost s = schema@;
    let ghost cols = batch.cells();
    let ghost declared = batch.types();
    let ghost num_rows = batch.num_rows as nat;
    let n: usize = schema.num_buckets;
    let mut b: usize = 0;
    while b < n
        invariant
            b <= n == schema.num_buckets,
            n == writers@.len(),
            s == schema@,
            cols == batch.cells(),
            declared == batch.types(),
            num_rows == batch.num_rows,
            schema.well_formed(),
            writers_ok(writers@, s, limits),
            batch.well_formed(),
            batch.columns@.len() == schema.columns@.len(),
            image::buckets_error(s, declared, cols, num_rows, b as nat) is None,
        decreases n - b,
    {
        assert(writer_ok(writers@[b as int], s, limits, b as int));
        if let Some(bw) = &writers[b] {
            let ghost dts = image::bucket_types(s, b as int);
            let ghost part = image::bucket_part(s, cols, b as int);
            let mut arrays: Vec<&Vec<Cell>> = bucket_arrays(schema, batch, b);
            let total: usize = arrays.len();
            let agreeing: usize = if batch.num_rows == 0 {
                total
            } else {
                count_agreeing(schema, batch, b)
            };
            arrays.truncate(agreeing);
            assert(bucket_writer::columns(arrays@) =~= part.take(agreeing as int));
            match bw.check_columns(&arrays) {
                Err(e) => {
                    proof {
                        lemma_first_error(s, declared, cols, num_rows, (b + 1) as nat, s.num_buckets);
                    }
                    return Err(e);
                },
                Ok(()) => {},
            }
            if agreeing < total {
                proof {
                    lemma_first_error(s, declared, cols, num_rows, (b + 1) as nat, s.num_buckets);
                }
                return Err(Error::ColumnTypeMismatch);
            }
        } else {
            assert(image::bucket_part(s, cols, b as int) =~= Seq::<Seq<CellView>>::empty());
            assert(image::bucket_part(s, cols, b as int).take(0) =~= Seq::<Seq<CellView>>::empty());
        }
        b = b + 1;
    }
    Ok(())
}

/// Adds the columns of a batch to their buckets. Returns an estimate of their
/// size, at most `u64::MAX`.
fn append_columns(
    writers: &mut Vec<Option<BucketWriter>>,
    schema: &MosaicSchema,
    batch: &RecordBatch,
    Ghost(limits): Ghost<Limits>,
    Ghost(d): Ghost<GroupData>,
) -> (size: u64)
    requires
        schema.well_formed(),
        writers_ok(old(writers)@, schema@, limits),
        d.buckets == all_rows(old(writers)@),
        counted(old(writers)@, d.num_rows),
        batch.well_formed(),
        batch.columns@.len() == schema.columns@.len(),
        image::buckets_error(
            schema@,
            batch.types(),
            batch.cells(),
            batch.num_rows as nat,
            schema@.num_buckets,
        ) is None,
    ensures
        writers_ok(final(writers)@, schema@, limits),
        counted(final(writers)@, d.num_rows + batch.num_rows as nat),
        size == saturated(
            image::buckets_size(
                schema@,
                batch.cells(),
                batch.num_rows as nat,
                schema@.num_buckets,
            ) as int,
        ),
        all_rows(final(writers)@) == image::with_buckets(
            schema@,
            d,
            batch.cells(),
            schema@.num_buckets as int,
        ).buckets,
{
    let ghost s = schema@;
    let ghost cols = batch.cells();
    let ghost declared = batch.types();
    let ghost num_rows = batch.num_rows as nat;
    let n: usize = schema.num_buckets;
    let mut size: u64 = 0;
    let mut b: usize = 0;
    assert(all_rows(writers@) =~= image::with_buckets(s, d, cols, 0).buckets);
    assert(writers@.skip(0) =~= writers@);
    while b < n
        invariant
            b <= n == schema.num_buckets,
            n == writers@.len(),
            s == schema@,
            cols == batch.cells(),
            declared == batch.types(),
            num_rows == batch.num_rows,
            schema.well_formed(),
            writers_ok(writers@, s, limits),
            d.buckets.len() == n,
            batch.well_formed(),
            batch.columns@.len() == schema.columns@.len(),
            all_rows(writers@) == image::with_buckets(s, d, cols, b as int).buckets,
            counted(writers@.take(b as int), d.num_rows + batch.num_rows as nat),
            counted(writers@.skip(b as int), d.num_rows),
            image::buckets_error(s, declared, cols, num_rows, s.num_buckets) is None,
            image::buckets_error(s, declared, cols, num_rows, b as nat) is None,
            size == saturated(
                image::buckets_size(s, cols, batch.num_rows as nat, b as nat) as int,
            ),
        decreases n - b,
    {
        let ghost dts = image::bucket_types(s, b as int);
        let ghost part = image::bucket_part(s, cols, b as int);
        let ghost before = writers@;
        assert(writer_ok(writers@[b as int], s, limits, b as int));
        assert(all_rows(writers@)[b as int] == d.buckets[b as int]);
        assert(writers@.skip(b as int)[0] == writers@[b as int]);
        proof {
            if image::buckets_error(s, declared, cols, num_rows, (b + 1) as nat) is Some {
                lemma_first_error(s, declared, cols, num_rows, (b + 1) as nat, s.num_buckets);
            }
        }
        proof {
            lemma_agreeing_bound(dts, image::bucket_declared(s, declared, b as int), dts.len());
            assert(part.take(part.len() as int) =~= part);
        }
        if let Some(bw) = &mut writers[b] {
            let arrays: Vec<&Vec<Cell>> = bucket_arrays(schema, batch, b);
            let more: usize = bw.take_columns(&arrays);
            size = size.saturating_add(more as u64);
        }
        proof {
            assert(forall|c: int| 0 <= c < n && c != b ==> #[trigger] writers@[c] == before[c]);
            assert(forall|c: int|
                0 <= c < n && c != b ==> writer_ok(#[trigger] before[c], s, limits, c));
            let goal = image::with_buckets(s, d, cols, b + 1).buckets;
            assert forall|c: int| 0 <= c < n implies #[trigger] all_rows(writers@)[c] == goal[c] by {
                assert(all_rows(before)[c] == image::with_buckets(s, d, cols, b as int).buckets[c]);
                if c == b {
                    if before[c] is Some {
                        before[c]->0.lemma_well_formed();
                    }
                    assert(all_rows(writers@)[c] =~= goal[c]);
                }
            }
            assert(all_rows(writers@) =~= goal);
            assert forall|c: int|
                0 <= c < b + 1 && #[trigger] writers@.take(b + 1)[c] is Some implies writers@.take(
                b + 1,
            )[c]->0.row_count() == d.num_rows + batch.num_rows by {
                if c < b {
                    assert(before.take(b as int)[c] == before[c]);
                }
            }
            assert forall|c: int|
                0 <= c < n - (b + 1) && #[trigger] writers@.skip(
                    b + 1,
                )[c] is Some implies writers@.skip(b + 1)[c]->0.row_count() == d.num_rows by {
                assert(before.skip(b as int)[c + 1] == writers@.skip(b + 1)[c]);
            }
            if before[b as int] is None {
                assert(part =~= Seq::<Seq<CellView>>::empty());
            }
        }
        b = b + 1;
    }
    assert(writers@.take(n as int) =~= writers@);
    size
}

/// The first error among some buckets is the first among more of them.
proof fn lemma_first_error(
    s: SchemaView,
    declared: Seq<DataType>,
    cols: Seq<Seq<CellView>>,
    num_rows: nat,
    k: nat,
    n: nat,
)
    requires
        k <= n,
        image::buckets_error(s, declared, cols, num_rows, k) is Some,
    ensures
        image::buckets_error(s, declared, cols, num_rows, n) == image::buckets_error(s, declared, cols, num_rows, k),
    decreases n,
{
    if k < n {
        lemma_first_error(s, declared, cols, num_rows, k, (n - 1) as nat);
    }
}

/// Whether a column that is not nullable has a null in a batch.
fn has_misplaced_null(schema: &MosaicSchema, batch: &RecordBatch) -> (r: bool)
    requires
        batch.columns@.len() == schema.columns@.len(),
    ensures
        r == batch::misplaced_null(schema_nullable(schema@), batch.cells()),
{
    let ghost nullable = schema_nullable(schema@);
    let ghost cols = batch.cells();
    let mut i: usize = 0;
    while i < schema.columns.len()
        invariant
            i <= schema.columns@.len(),
            batch.columns@.len() == schema.columns@.len(),
            nullable == schema_nullable(schema@),
            cols == batch.cells(),
            forall|j: int|
                0 <= j < i && !(#[trigger] nullable[j]) ==> !batch::has_null(cols[j]),
        decreases schema.columns@.len() - i,
    {
        assert(cols[i as int] == values::cells(batch.columns@[i as int]@));
        if !schema.columns[i].nullable && batch::contains_null(&batch.columns[i]) {
            assert(!nullable[i as int]);
            return true;
        }
        i = i + 1;
    }
    false
}

/// The file once its waiting rows are written.
pub open spec fn settled(st: WriterState, file: Seq<u8>) -> (WriterState, Seq<u8>) {
    if st.data.num_rows == 0 {
        (st, file)
    } else {
        (flushed(st, file.len() as int), file + pending(st))
    }
}

/// An error of writing the end of a file: of the schema block, or of a number
/// that does not fit in its field.
pub open spec fn tail_error(e: Error, st: WriterState) -> bool {
    if schema::schema_bytes(st.schema).len() > u32::MAX {
        e == Error::SizeOverflow
    } else {
        ||| e is Io
        ||| e == Error::Compress && st.settings.compression == COMPRESSION_ZSTD && blocks::fails(
            schema::schema_bytes(st.schema),
            st.settings.level,
        )
        ||| e == Error::WriterCompression && !is_known(st.settings.compression)
        ||| e == Error::SizeOverflow && is_known(st.settings.compression) && !is_countable(st)
    }
}

/// Whether the numbers of the index and of the footer fit in their fields.
pub open spec fn is_countable(st: WriterState) -> bool {
    &&& st.groups.len() <= u32::MAX
    &&& forall|i: int| 0 <= i < st.groups.len() ==> layout::compact(#[trigger] st.groups[i])
}

/// Whether a file can be closed: how it is compressed is known, and all numbers fit in
/// their fields, those of the rows that are waiting included.
pub open spec fn is_within_limits(st: WriterState, file: Seq<u8>) -> bool {
    &&& is_known(st.settings.compression)
    &&& st.data.num_rows > 0 ==> is_storable(st)
    &&& schema::schema_bytes(st.schema).len() <= u32::MAX
    &&& is_countable(settled(st, file).0)
}

/// Whether compressing what is left to be written of a file fails: the rows that are waiting,
/// or the schema.
pub open spec fn is_incompressible(st: WriterState) -> bool {
    ||| st.data.num_rows > 0 && group_fails(st)
    ||| st.settings.compression == COMPRESSION_ZSTD && blocks::fails(
        schema::schema_bytes(st.schema),
        st.settings.level,
    )
}

/// A failure of zstd, which may run out of memory.
pub open spec fn is_zstd_failure(set: Settings, r: Result<(), Error>) -> bool {
    set.compression == COMPRESSION_ZSTD && r == Err::<(), Error>(Error::Compress)
}

impl<S: OutputFile> MosaicWriter<S> {
    /// Adds the rows of a batch, and writes a row group once enough of them are
    /// waiting.
    pub fn write_batch(&mut self, batch: &RecordBatch) -> (r: Result<(), Error>)
        requires
            old(self).well_formed(),
            batch.well_formed(),
        ensures
            final(self).well_formed(),
            old(self).written().is_prefix_of(final(self).written()),
            old(self).intact() ==> final(self).intact(),
            match batch_error(
                old(self).state(),
                batch.types(),
                batch.cells(),
                batch.num_rows as nat,
            ) {
                Some(e) => {
                    &&& r is Err
                    &&& r->Err_0 == e
                    &&& *final(self) == *old(self)
                },
                None => {
                    let st = with_batch(
                        old(self).state(),
                        batch.cells(),
                        batch.num_rows as nat,
                    );
                    if st.buffered < st.max_size {
                        &&& r is Ok
                        &&& final(self).state() == st
                        &&& final(self).file() == old(self).file()
                    } else {
                        &&& is_fair(old(self).file(), final(self).file(), r)
                        &&& is_unknown_group(st) ==> r == Err::<(), Error>(
                            Error::WriterCompression,
                        ) && final(self).file() == old(self).file()
                        &&& old(self).file().dependable() && is_known(st.settings.compression)
                            && is_storable(st) ==> r is Ok || is_zstd_failure(st.settings, r)
                        &&& old(self).file().dependable() && is_known(st.settings.compression)
                            && is_storable(st) && !group_fails(st) ==> r is Ok
                        &&& match r {
                            Ok(()) => (final(self).state(), final(self).written()) == settled(
                                st,
                                old(self).written(),
                            ),
                            Err(e) => flush_error(e, st) && st.data.num_rows > 0 && final(self).state() == st,
                        }
                    }
                },
            },
    {
        if self.closed {
            return Err(Error::WriterClosed);
        }
        if batch.columns.len() != self.schema.columns.len() {
            return Err(Error::ColumnCount);
        }
        if has_misplaced_null(&self.schema, batch) {
            return Err(Error::NonNullable);
        }
        let ghost st = self.state();
        let ghost cols = batch.cells();
        let ghost limits = self.settings().limits;
        match check_columns(&self.bucket_writers, &self.schema, batch, Ghost(limits)) {
            Err(e) => {
                return Err(e);
            },
            Ok(()) => {},
        }
        if batch.num_rows > usize::MAX - self.current_row_group_rows {
            return Err(Error::SizeOverflow);
        }
        let size: u64 = append_columns(
            &mut self.bucket_writers,
            &self.schema,
            batch,
            Ghost(limits),
            Ghost(st.data),
        );
        let ghost rows = self.current_row_group_rows as nat;
        if let Some(collector) = &mut self.stats_collector {
            proof {
                assert forall|i: int| 0 <= i < collector.stats().len() implies (
                #[trigger] collector.stats()[i]).column_index < batch.columns@.len()
                    && collector.stats()[i].null_count
                    + batch.columns@[collector.stats()[i].column_index as int]@.len()
                    <= usize::MAX by {}
            }
            let ghost before = *collector;
            collector.update_batch(&batch.columns);
            proof {
                lemma_collector(before, *collector, self.schema@, rows, batch);
            }
        }
        self.current_row_group_rows = self.current_row_group_rows + batch.num_rows;
        self.current_buffered_size = self.current_buffered_size.saturating_add(size);
        proof {
            let goal = with_batch(st, cols, batch.num_rows as nat);
            assert(self.state().data.stats =~= goal.data.stats);
            assert(self.state().data =~= goal.data);
            assert(self.state() =~= goal);
        }
        if self.current_buffered_size >= self.row_group_max_size {
            return self.flush_row_group();
        }
        Ok(())
    }

    /// Writes the rows that are waiting and the end of the file. Closing a file again
    /// does nothing.
    pub fn close(&mut self) -> (r: Result<(), Error>)
        requires
            old(self).well_formed(),
        ensures
            final(self).well_formed(),
            final(self).state().closed,
            old(self).written().is_prefix_of(final(self).written()),
            old(self).intact() ==> final(self).intact(),
            is_fair(old(self).file(), final(self).file(), r),
            old(self).state().closed ==> r is Ok && *final(self) == *old(self),
            !old(self).state().closed && is_unknown_group(old(self).state()) ==> r == Err::<
                (),
                Error,
            >(Error::WriterCompression) && final(self).file() == old(self).file(),
            !old(self).state().closed && old(self).state().data.num_rows == 0
                && schema::schema_bytes(old(self).state().schema).len() > u32::MAX ==> r == Err::<
                (),
                Error,
            >(Error::SizeOverflow) && final(self).file() == old(self).file(),
            !old(self).state().closed && old(self).file().dependable() && is_within_limits(
                old(self).state(),
                old(self).written(),
            ) ==> r is Ok || is_zstd_failure(old(self).state().settings, r),
            !old(self).state().closed && old(self).file().dependable() && is_within_limits(
                old(self).state(),
                old(self).written(),
            ) && !is_incompressible(old(self).state()) ==> r is Ok,
            !old(self).state().closed ==> {
                let (st, file) = settled(old(self).state(), old(self).written());
                match r {
                    Ok(()) => {
                        &&& final(self).state() == (WriterState { closed: true, ..st })
                        &&& final(self).written() == file + image::tail_bytes(
                            st.settings,
                            st.schema,
                            st.groups,
                            file.len() as int,
                        )
                        &&& image::closable(
                            st.settings,
                            st.schema,
                            st.groups,
                            file.len() as int,
                        )
                        &&& final(self).file().handed_on() == final(self).written().len()
                        &&& old(self).intact() ==> image::all_placed(
                            file,
                            st.settings,
                            st.schema,
                            st.groups,
                            st.history,
                        )
                    },
                    Err(e) => {
                        ||| old(self).state().data.num_rows > 0 && flush_error(
                            e,
                            old(self).state(),
                        ) && final(self).state() == (WriterState {
                            closed: true,
                            ..old(self).state()
                        })
                        ||| tail_error(e, st) && final(self).state() == (WriterState {
                            closed: true,
                            ..st
                        })
                    },
                }
            },
    {
        if self.closed {
            return Ok(());
        }
        let ghost st = self.state();
        self.closed = true;
        assert(self.state() =~= (WriterState { closed: true, ..st }));
        match self.flush_row_group() {
            Err(e) => {
                return Err(e);
            },
            Ok(()) => {},
        }
        let ghost mid = settled(st, old(self).written());
        proof {
            assert(self.state() =~= (WriterState { closed: true, ..mid.0 }));
        }
        self.write_tail()
    }

    /// Writes the schema block, the index and the footer.
    fn write_tail(&mut self) -> (r: Result<(), Error>)
        requires
            old(self).well_formed(),
        ensures
            final(self).well_formed(),
            final(self).state() == old(self).state(),
            old(self).written().is_prefix_of(final(self).written()),
            old(self).intact() ==> final(self).intact(),
            match r {
                Ok(()) => {
                    let st = old(self).state();
                    let base = old(self).written().len() as int;
                    &&& final(self).written() == old(self).written() + image::tail_bytes(
                        st.settings,
                        st.schema,
                        st.groups,
                        base,
                    )
                    &&& image::closable(st.settings, st.schema, st.groups, base)
                    &&& final(self).file().handed_on() == final(self).written().len()
                },
                Err(e) => tail_error(e, old(self).state()),
            },
            is_fair(old(self).file(), final(self).file(), r),
            schema::schema_bytes(old(self).state().schema).len() > u32::MAX ==> r is Err
                && final(self).file() == old(self).file(),
    {
        let ghost st = self.state();
        let ghost start = self.written();
        let r: Result<(), Error> = write_end(
            &mut self.out,
            &self.schema,
            &self.row_group_metas,
            self.compression,
            self.zstd_level,
            Ghost(st),
        );
        proof {
            assert(self.state() =~= st);
            if old(self).intact() {
                image::lemma_placed_prefix(
                    start,
                    self.written(),
                    st.settings,
                    st.schema,
                    st.groups,
                    st.history,
                );
            }
        }
        r
    }
}

/// Writes the schema block, the index and the footer of a file.
fn write_end<S: OutputFile>(
    out: &mut S,
    schema: &MosaicSchema,
    metas: &Vec<RowGroupMeta>,
    compression: u8,
    zstd_level: i32,
    Ghost(st): Ghost<WriterState>,
) -> (r: Result<(), Error>)
    requires
        schema.well_formed(),
        schema@.writable(),
        forall|i: int|
            0 <= i < metas@.len() ==> layout::writable_group(
                #[trigger] metas@[i]@,
                schema::column_types(schema@.columns),
                schema@.num_buckets,
            ),
        st.schema == schema@,
        st.groups == layout::group_views(metas@),
        st.settings.compression == compression,
        st.settings.level == zstd_level,
    ensures
        old(out).written().is_prefix_of(final(out).written()),
        match r {
            Ok(()) => {
                let base = old(out).written().len() as int;
                &&& final(out).written() == old(out).written() + image::tail_bytes(
                    st.settings,
                    st.schema,
                    st.groups,
                    base,
                )
                &&& image::closable(st.settings, st.schema, st.groups, base)
                &&& final(out).handed_on() == final(out).written().len()
            },
            Err(e) => tail_error(e, st),
        },
        is_fair(*old(out), *final(out), r),
        schema::schema_bytes(st.schema).len() > u32::MAX ==> r is Err && *final(out) == *old(out),
{
    let ghost start = out.written();
    let schema_raw: Vec<u8> = schema.serialize();
    let schema_offset: u64 = out.pos();
    let size: u32 = match layout::to_u32(schema_raw.len()) {
        Err(e) => {
            return Err(e);
        },
        Ok(v) => v,
    };
    let mut field: Vec<u8> = Vec::new();
    bytes::write_be(&mut field, size as u64, 4);
    match out.write(&field) {
        Err(e) => {
            return Err(e);
        },
        Ok(()) => {},
    }
    match write_compressed(out, compression, zstd_level, &schema_raw) {
        Err(e) => {
            return Err(e);
        },
        Ok(_) => {},
    }
    let ghost block = image::schema_block(st.settings, st.schema);
    assert(field@ =~= bytes::be(schema_raw@.len(), 4));
    assert(out.written() =~= start + block);
    let index_offset: u64 = out.pos();
    let index: Vec<u8> = match layout::write_index(metas, &schema.columns, schema.num_buckets) {
        Err(e) => {
            proof {
                let i = choose|i: int|
                    0 <= i < metas@.len() && !layout::compact(#[trigger] metas@[i]@);
                assert(!layout::compact(st.groups[i]));
            }
            return Err(e);
        },
        Ok(v) => v,
    };
    match out.write(&index) {
        Err(e) => {
            return Err(e);
        },
        Ok(()) => {},
    }
    let num_row_groups: u32 = match layout::to_u32(metas.len()) {
        Err(e) => {
            return Err(e);
        },
        Ok(v) => v,
    };
    let f: Footer = Footer {
        index_offset,
        schema_offset,
        num_buckets: schema.num_buckets as u32,
        num_row_groups,
        compression,
    };
    let ghost base = start.len() as int;
    assert(f == image::footer_of(st.settings, st.schema, st.groups, base));
    let footer: Vec<u8> = layout::write_footer(&f);
    match out.write(&footer) {
        Err(e) => {
            return Err(e);
        },
        Ok(()) => {},
    }
    proof {
        assert(out.written() =~= start + image::tail_bytes(
            st.settings,
            st.schema,
            st.groups,
            base,
        ));
        assert forall|i: int| 0 <= i < st.groups.len() implies layout::compact(
            #[trigger] st.groups[i],
        ) by {
            assert(layout::compact(metas@[i]@));
        }
    }
    out.flush()
}

proof fn lemma_collector(
    before: StatsCollector,
    after: StatsCollector,
    s: SchemaView,
    num_rows: nat,
    batch: &RecordBatch,
)
    requires
        collector_ok(before, s, num_rows),
        batch.well_formed(),
        batch.columns@.len() == s.columns.len(),
        after.types() == before.types(),
        after.stats() == Seq::new(
            before.stats().len(),
            |i: int|
                stats::with_cells(
                    before.types()[i],
                    before.stats()[i],
                    values::cells(batch.columns@[before.stats()[i].column_index as int]@),
                ),
        ),
    ensures
        collector_ok(after, s, (num_rows + batch.num_rows) as nat),
{
    assert forall|i: int| 0 <= i < after.stats().len() implies {
        let t = #[trigger] after.stats()[i];
        &&& t.column_index < s.columns.len()
        &&& after.types()[i] == s.columns[t.column_index as int].field.data_type
        &&& t.null_count <= num_rows + batch.num_rows
        &&& stats::sound_stat(after.types()[i], t)
    } by {
        let t = before.stats()[i];
        let column = batch.columns@[t.column_index as int];
        let rows = values::cells(column@);
        assert forall|j: int| 0 <= j < rows.len() implies values::cell_fits(
            #[trigger] rows[j],
        ) by {
            assert(values::cell_fits(batch.columns@[t.column_index as int]@[j]@));
        }
        stats::lemma_with_cells_sound(before.types()[i], t, rows);
    }
}

} // verus!
