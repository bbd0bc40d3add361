//! Reads the columns of a row group.

use crate::batch;
use crate::batch::RecordBatch;
use crate::blocks;
use crate::bucket_reader;
use crate::bucket_reader::{BucketReader, ColumnPageReader};
use crate::bytes;
use crate::decoding;
use crate::decoding::{BucketInfo, PageInfo};
use crate::error::Error;
use crate::format::{COMPRESSION_ZSTD, ENCODING_ALL_NULL, ENCODING_CONST};
use crate::image;
use crate::input;
use crate::input::InputFile;
use crate::layout;
use crate::layout::{BucketLayout, GroupView, LayoutView, RowGroupMeta};
use crate::schema;
use crate::schema::{MosaicSchema, SchemaView};
use crate::types::{DataType, Field, FieldView};
use crate::values;
use crate::values::{Cell, CellView, Value, ValueView};
use crate::varint;
use vstd::prelude::*;

verus! {

/// What a file says of itself.
#[verifier::ext_equal]
pub struct FileView {
    pub schema: SchemaView,
    pub groups: Seq<GroupView>,
    pub compression: u8,
}

/// Whether a bucket has a projected column.
pub open spec fn is_needed(s: SchemaView, projected: Seq<bool>, b: int) -> bool {
    exists|k: int|
        0 <= k < image::bucket_members(s, b).len() && projected[(
        #[trigger] image::bucket_members(s, b)[k]) as int]
}

/// Which columns of a bucket are projected.
pub open spec fn wanted(s: SchemaView, projected: Seq<bool>, b: int) -> Seq<bool> {
    Seq::new(
        image::bucket_members(s, b).len(),
        |k: int| projected[image::bucket_members(s, b)[k] as int],
    )
}

/// Whether a bucket has columns and all of them are projected.
pub open spec fn is_whole(s: SchemaView, projected: Seq<bool>, b: int) -> bool {
    &&& is_needed(s, projected, b)
    &&& forall|k: int|
        0 <= k < image::bucket_members(s, b).len() ==> projected[(
        #[trigger] image::bucket_members(s, b)[k]) as int]
}

/// How a bucket that is to be read is stored.
pub open spec fn needed_layout(
    s: SchemaView,
    g: GroupView,
    projected: Seq<bool>,
    b: int,
) -> LayoutView {
    if is_needed(s, projected, b) {
        g.layouts[b]
    } else {
        LayoutView::Empty
    }
}

/// The size of the directory of a paged bucket.
pub open spec fn directory_size(s: SchemaView, b: int) -> int {
    4 * image::bucket_members(s, b).len() as int
}

/// What is wrong with how a bucket is stored, if anything is.
pub open spec fn layout_error(f: FileView, g: GroupView, projected: Seq<bool>, b: int) -> Option<
    Error,
> {
    match needed_layout(f.schema, g, projected, b) {
        LayoutView::Paged { total_size } => if f.compression != COMPRESSION_ZSTD {
            Some(Error::PagedNeedsZstd)
        } else if directory_size(f.schema, b) > total_size {
            Some(Error::PagedDirectorySize)
        } else {
            None
        },
        _ => None,
    }
}

/// The sizes of the slots that a directory lists.
pub open spec fn slot_sizes(dir: Seq<u8>, n: nat) -> Seq<nat> {
    Seq::new(n, |i: int| bytes::le4_value(dir.subrange(4 * i, 4 * i + 4)))
}

/// The size of the first `k` slots.
pub open spec fn slots_size(sizes: Seq<nat>, k: nat) -> nat
    decreases k,
{
    if k == 0 {
        0
    } else {
        slots_size(sizes, (k - 1) as nat) + sizes[k - 1]
    }
}

/// A column of a paged bucket.
pub struct PageView {
    pub kind: u8,
    pub flag: bool,
    pub constant: ValueView,
    pub bytes: Seq<u8>,
    pub info: PageInfo,
}

/// A column without values.
pub open spec fn null_page() -> PageView {
    PageView {
        kind: ENCODING_ALL_NULL,
        flag: false,
        constant: ValueView::Null,
        bytes: Seq::empty(),
        info: PageInfo { dict: Seq::empty(), bitmap: Seq::empty(), cursor: 0 },
    }
}

/// The constant of a column in what its block holds, and the position behind it.
pub open spec fn content_constant(dt: DataType, content: Seq<u8>) -> Result<
    (ValueView, int),
    Error,
> {
    if content[0] == ENCODING_CONST {
        match values::value_at(dt, content, 2, Error::PageConstTruncated) {
            Err(e) => Err(e),
            Ok((v, size)) => Ok((v, 2 + size)),
        }
    } else {
        Ok((ValueView::Null, 2))
    }
}

/// The column that the content of its block describes.
pub open spec fn parse_content(dt: DataType, content: Seq<u8>, num_rows: nat) -> Result<
    PageView,
    Error,
> {
    if content.len() < 2 {
        Err(Error::PageContentShort)
    } else {
        let flag = content[1] % 2 == 1;
        match content_constant(dt, content) {
            Err(e) => Err(e),
            Ok((constant, p)) => match decoding::parse_page(
                dt,
                content[0],
                flag,
                content.skip(p),
                0,
                num_rows,
            ) {
                Err(e) => Err(e),
                Ok(info) => Ok(
                    PageView { kind: content[0], flag, constant, bytes: content.skip(p), info },
                ),
            },
        }
    }
}

/// The column that a slot describes. An empty slot is a column without values.
#[verifier::opaque]
pub open spec fn parse_slot(dt: DataType, slot: Seq<u8>, num_rows: nat) -> Result<
    PageView,
    Error,
> {
    if slot.len() == 0 {
        Ok(null_page())
    } else {
        match varint::parse_u32(slot, 0) {
            Err(e) => Err(e),
            Ok(size) => match blocks::inflated(
                slot.skip(varint::parse_end(slot, 0, 5)),
                size as int,
            ) {
                Err(e) => Err(e),
                Ok(content) => parse_content(dt, content, num_rows),
            },
        }
    }
}

/// Whether decompressing a slot is sure to succeed.
pub open spec fn is_sound_slot(slot: Seq<u8>) -> bool {
    slot.len() > 0 && varint::parse_u32(slot, 0) is Ok ==> blocks::is_sound(
        slot.skip(varint::parse_end(slot, 0, 5)),
        varint::parse_u32(slot, 0)->Ok_0 as int,
    )
}

/// Whether decompressing the slots of the projected columns is sure to succeed.
pub open spec fn are_sound_slots(want: Seq<bool>, slots: Seq<Seq<u8>>) -> bool {
    forall|k: int| 0 <= k < want.len() && want[k] ==> is_sound_slot(#[trigger] slots[k])
}

/// Where a slot of a paged bucket starts.
pub open spec fn slot_start(offset: int, sizes: Seq<nat>, k: int) -> int {
    offset + 4 * sizes.len() + slots_size(sizes, k as nat)
}

/// The slots of a paged bucket that starts at `offset` of the file.
pub open spec fn slots_at(file: Seq<u8>, offset: int, sizes: Seq<nat>) -> Seq<Seq<u8>> {
    Seq::new(
        sizes.len(),
        |i: int|
            if sizes[i] == 0 {
                Seq::empty()
            } else {
                file.subrange(
                    slot_start(offset, sizes, i),
                    slot_start(offset, sizes, i) + sizes[i],
                )
            },
    )
}

/// The projected columns from `k` on of a paged bucket, behind those in `acc`.
pub open spec fn pages_from(
    dts: Seq<DataType>,
    want: Seq<bool>,
    slots: Seq<Seq<u8>>,
    num_rows: nat,
    k: int,
    acc: Seq<Option<PageView>>,
) -> Result<Seq<Option<PageView>>, Error>
    decreases dts.len() - k,
{
    if k >= dts.len() {
        Ok(acc)
    } else if !want[k] {
        pages_from(dts, want, slots, num_rows, k + 1, acc.push(None))
    } else {
        match parse_slot(dts[k], slots[k], num_rows) {
            Err(e) => Err(e),
            Ok(p) => pages_from(dts, want, slots, num_rows, k + 1, acc.push(Some(p))),
        }
    }
}

/// A bucket that was opened.
pub enum BucketView {
    Absent,
    Monolithic { bytes: Seq<u8>, info: BucketInfo },
    Paged { pages: Seq<Option<PageView>> },
}

/// The sizes of the slots of a paged bucket.
pub open spec fn sizes_at(f: FileView, file: Seq<u8>, g: GroupView, b: int) -> Seq<nat> {
    let offset = g.offsets[b] as int;
    slot_sizes(
        file.subrange(offset, offset + directory_size(f.schema, b)),
        image::bucket_members(f.schema, b).len(),
    )
}

/// Whether the directory and the slots of a paged bucket do not add up to its
/// size.
pub open spec fn is_mismatched(
    f: FileView,
    file: Seq<u8>,
    g: GroupView,
    b: int,
    total_size: nat,
) -> bool {
    let sizes = sizes_at(f, file, g, b);
    directory_size(f.schema, b) + slots_size(sizes, sizes.len()) != total_size
}

/// Opens a bucket.
#[verifier::opaque]
pub open spec fn open_bucket(
    f: FileView,
    file: Seq<u8>,
    g: GroupView,
    projected: Seq<bool>,
    b: int,
) -> Result<BucketView, Error> {
    let offset = g.offsets[b] as int;
    let dts = image::bucket_types(f.schema, b);
    match needed_layout(f.schema, g, projected, b) {
        LayoutView::Empty => Ok(BucketView::Absent),
        LayoutView::Monolithic { compressed_size, uncompressed_size } => match blocks::unpacked(
            f.compression,
            file.subrange(offset, offset + compressed_size),
            uncompressed_size as int,
        ) {
            Err(e) => Err(e),
            Ok(raw) => match decoding::parse_bucket(dts, raw, g.num_rows) {
                Err(e) => Err(e),
                Ok(info) => Ok(BucketView::Monolithic { bytes: raw, info }),
            },
        },
        LayoutView::Paged { total_size } => if is_mismatched(f, file, g, b, total_size) {
            Err(Error::PagedDirectoryMismatch)
        } else {
            match pages_from(
                dts,
                wanted(f.schema, projected, b),
                slots_at(file, offset, sizes_at(f, file, g, b)),
                g.num_rows,
                0,
                Seq::empty(),
            ) {
                Err(e) => Err(e),
                Ok(pages) => Ok(BucketView::Paged { pages }),
            }
        },
    }
}

/// Whether decompressing what a bucket stores of the projected columns is sure to
/// succeed.
#[verifier::opaque]
pub open spec fn is_sound_bucket(
    f: FileView,
    file: Seq<u8>,
    g: GroupView,
    projected: Seq<bool>,
    b: int,
) -> bool {
    let offset = g.offsets[b] as int;
    match needed_layout(f.schema, g, projected, b) {
        LayoutView::Empty => true,
        LayoutView::Monolithic { compressed_size, uncompressed_size } => blocks::is_sound_block(
            f.compression,
            file.subrange(offset, offset + compressed_size),
            uncompressed_size as int,
        ),
        LayoutView::Paged { .. } => are_sound_slots(
            wanted(f.schema, projected, b),
            slots_at(file, offset, sizes_at(f, file, g, b)),
        ),
    }
}

/// Whether decompressing what a row group stores of the projected columns is sure to
/// succeed.
pub open spec fn is_sound_group(
    f: FileView,
    file: Seq<u8>,
    g: GroupView,
    projected: Seq<bool>,
) -> bool {
    forall|b: int|
        0 <= b < f.schema.num_buckets ==> #[trigger] is_sound_bucket(f, file, g, projected, b)
}

/// Whether the slots of a bucket are read in a second round: its columns are stored
/// one by one, and not all of them are projected.
pub open spec fn is_partial(s: SchemaView, g: GroupView, projected: Seq<bool>, b: int) -> bool {
    needed_layout(s, g, projected, b) is Paged && !is_whole(s, projected, b)
}

/// How many bytes of a bucket are read in the first round: all of them, or only the
/// directory where the slots come in the second.
pub open spec fn first_round_size(s: SchemaView, g: GroupView, projected: Seq<bool>, b: int) -> int {
    if is_partial(s, g, projected, b) {
        directory_size(s, b)
    } else {
        needed_layout(s, g, projected, b).sizes().0 as int
    }
}

/// What is read of the first `n` buckets in the first round: the start and the length
/// of each that has a projected column and is stored.
pub open spec fn first_ranges(s: SchemaView, g: GroupView, projected: Seq<bool>, n: nat) -> Seq<
    (u64, usize),
>
    decreases n,
{
    if n == 0 {
        Seq::empty()
    } else {
        let before = first_ranges(s, g, projected, (n - 1) as nat);
        if needed_layout(s, g, projected, n - 1) is Empty {
            before
        } else {
            before.push(
                (g.offsets[n - 1], first_round_size(s, g, projected, n - 1) as usize),
            )
        }
    }
}

/// The slots among the first `k` of a paged bucket that hold projected columns and are
/// not empty.
pub open spec fn slot_ranges(offset: int, sizes: Seq<nat>, want: Seq<bool>, k: nat) -> Seq<
    (u64, usize),
>
    decreases k,
{
    if k == 0 {
        Seq::empty()
    } else {
        let before = slot_ranges(offset, sizes, want, (k - 1) as nat);
        if want[k - 1] && sizes[k - 1] > 0 {
            before.push((slot_start(offset, sizes, k - 1) as u64, sizes[k - 1] as usize))
        } else {
            before
        }
    }
}

/// The slots of the first `n` buckets that are wanted in the second round.
pub open spec fn second_ranges(
    f: FileView,
    file: Seq<u8>,
    g: GroupView,
    projected: Seq<bool>,
    n: nat,
) -> Seq<(u64, usize)>
    decreases n,
{
    if n == 0 {
        Seq::empty()
    } else {
        let before = second_ranges(f, file, g, projected, (n - 1) as nat);
        if is_partial(f.schema, g, projected, n - 1) {
            let sizes = sizes_at(f, file, g, n - 1);
            before + slot_ranges(
                g.offsets[n - 1] as int,
                sizes,
                wanted(f.schema, projected, n - 1),
                sizes.len(),
            )
        } else {
            before
        }
    }
}

/// The error of a bucket once the first round is read.
pub open spec fn early_error(
    f: FileView,
    file: Seq<u8>,
    g: GroupView,
    projected: Seq<bool>,
    b: int,
) -> Option<Error> {
    if is_partial(f.schema, g, projected, b) {
        if is_mismatched(f, file, g, b, g.layouts[b]->total_size) {
            Some(Error::PagedDirectoryMismatch)
        } else {
            None
        }
    } else {
        match open_bucket(f, file, g, projected, b) {
            Err(e) => Some(e),
            Ok(_) => None,
        }
    }
}

/// The error of a bucket once the second round is read.
pub open spec fn late_error(
    f: FileView,
    file: Seq<u8>,
    g: GroupView,
    projected: Seq<bool>,
    b: int,
) -> Option<Error> {
    if is_partial(f.schema, g, projected, b) {
        match open_bucket(f, file, g, projected, b) {
            Err(e) => Some(e),
            Ok(_) => None,
        }
    } else {
        None
    }
}

/// The first error in a list.
pub open spec fn first_error(errors: Seq<Option<Error>>) -> Option<Error>
    decreases errors.len(),
{
    if errors.len() == 0 {
        None
    } else {
        match first_error(errors.drop_last()) {
            Some(e) => Some(e),
            None => errors.last(),
        }
    }
}

/// What is wrong with how the buckets of a row group are stored, if anything is. This
/// is found before anything is read.
pub open spec fn stored_error(f: FileView, g: GroupView, projected: Seq<bool>) -> Option<Error> {
    first_error(Seq::new(f.schema.num_buckets, |b: int| layout_error(f, g, projected, b)))
}

/// The error that opening the buckets of a row group fails with, if it does: all
/// buckets are looked at for how they are stored, then for what the first round
/// brought, then for what the second round brought.
pub open spec fn open_error(f: FileView, file: Seq<u8>, g: GroupView, projected: Seq<bool>) -> Option<
    Error,
> {
    let n = f.schema.num_buckets;
    match stored_error(f, g, projected) {
        Some(e) => Some(e),
        None => match first_error(Seq::new(n, |b: int| early_error(f, file, g, projected, b))) {
            Some(e) => Some(e),
            None => first_error(Seq::new(n, |b: int| late_error(f, file, g, projected, b))),
        },
    }
}

/// Opens the buckets of a row group.
pub open spec fn open_buckets(
    f: FileView,
    file: Seq<u8>,
    g: GroupView,
    projected: Seq<bool>,
) -> Result<Seq<BucketView>, Error> {
    match open_error(f, file, g, projected) {
        Some(e) => Err(e),
        None => Ok(
            Seq::new(
                f.schema.num_buckets,
                |b: int| open_bucket(f, file, g, projected, b)->Ok_0,
            ),
        ),
    }
}

/// Whether opening the buckets of a row group may fail with `e` whatever
/// [`open_buckets`] gives: something is to be read and the file may fail, or a frame
/// that was not made here may be refused.
pub open spec fn may_fail(
    e: Error,
    dependable: bool,
    failures: Set<Error>,
    f: FileView,
    file: Seq<u8>,
    g: GroupView,
    projected: Seq<bool>,
) -> bool {
    &&& stored_error(f, g, projected) is None
    &&& {
        ||| e is Io && failures.contains(e) && !dependable && first_ranges(
            f.schema,
            g,
            projected,
            f.schema.num_buckets,
        ).len() > 0
        ||| e == Error::Decompress && !is_sound_group(f, file, g, projected)
    }
}

/// The columns of a paged bucket from `k` on, behind those in `acc`.
pub open spec fn page_columns_from(
    dts: Seq<DataType>,
    pages: Seq<Option<PageView>>,
    num_rows: nat,
    k: int,
    acc: Seq<Option<Seq<CellView>>>,
) -> Result<Seq<Option<Seq<CellView>>>, Error>
    decreases dts.len() - k,
{
    if k >= dts.len() {
        Ok(acc)
    } else {
        match pages[k] {
            None => page_columns_from(dts, pages, num_rows, k + 1, acc.push(None)),
            Some(p) => match decoding::page_cells(
                dts[k],
                p.kind,
                p.flag,
                p.constant,
                p.info,
                p.bytes,
                num_rows,
            ) {
                Err(e) => Err(e),
                Ok(cs) => page_columns_from(dts, pages, num_rows, k + 1, acc.push(Some(cs))),
            },
        }
    }
}

/// The projected columns of a bucket.
pub open spec fn read_bucket(
    dts: Seq<DataType>,
    want: Seq<bool>,
    o: BucketView,
    num_rows: nat,
) -> Result<Seq<Option<Seq<CellView>>>, Error> {
    match o {
        BucketView::Absent => Ok(Seq::new(dts.len(), |k: int| None)),
        BucketView::Monolithic { bytes, info } => match decoding::bucket_columns(
            dts,
            info,
            bytes,
            num_rows,
        ) {
            Err(e) => Err(e),
            Ok(cs) => Ok(
                Seq::new(
                    dts.len(),
                    |k: int| if want[k] {
                        Some(cs[k])
                    } else {
                        None
                    },
                ),
            ),
        },
        BucketView::Paged { pages } => page_columns_from(dts, pages, num_rows, 0, Seq::empty()),
    }
}

/// The projected columns of bucket `b`.
pub open spec fn bucket_found(
    s: SchemaView,
    projected: Seq<bool>,
    opened: Seq<BucketView>,
    num_rows: nat,
    b: int,
) -> Result<Seq<Option<Seq<CellView>>>, Error> {
    read_bucket(
        image::bucket_types(s, b),
        wanted(s, projected, b),
        opened[b],
        num_rows,
    )
}

/// The error that reading the columns of a row group fails with, if it does.
#[verifier::opaque]
pub open spec fn read_error(
    s: SchemaView,
    projected: Seq<bool>,
    opened: Seq<BucketView>,
    num_rows: nat,
) -> Option<Error> {
    first_error(
        Seq::new(
            s.num_buckets,
            |b: int|
                match bucket_found(s, projected, opened, num_rows, b) {
                    Err(e) => Some(e),
                    Ok(_) => None,
                },
        ),
    )
}

/// The cells of column `c`, where it is projected and stored.
pub open spec fn column_found(
    s: SchemaView,
    projected: Seq<bool>,
    opened: Seq<BucketView>,
    num_rows: nat,
    c: int,
) -> Option<Seq<CellView>> {
    let b = s.columns[c].bucket_id as int;
    bucket_found(
        s,
        projected,
        opened,
        num_rows,
        b,
    )->Ok_0[image::bucket_members(s, b).index_of(c as usize)]
}

/// The cells of all columns that are projected and stored.
#[verifier::opaque]
pub open spec fn columns_found(
    s: SchemaView,
    projected: Seq<bool>,
    opened: Seq<BucketView>,
    num_rows: nat,
) -> Seq<Option<Seq<CellView>>> {
    Seq::new(s.columns.len(), |c: int| column_found(s, projected, opened, num_rows, c))
}

/// Those of the first `n` columns of a list that were found.
pub open spec fn kept(
    order: Seq<usize>,
    found: Seq<Option<Seq<CellView>>>,
    n: nat,
) -> Seq<usize>
    decreases n,
{
    if n == 0 {
        Seq::empty()
    } else {
        let before = kept(order, found, (n - 1) as nat);
        if found[order[n - 1] as int] is Some {
            before.push(order[n - 1])
        } else {
            before
        }
    }
}

/// The columns of a row group that are read.
pub struct BatchView {
    pub fields: Seq<FieldView>,
    pub columns: Seq<Seq<CellView>>,
    pub num_rows: nat,
}

/// The columns that were found, in the order that is asked for, unless one that is
/// not nullable has a null.
#[verifier::opaque]
pub open spec fn assembled(
    s: SchemaView,
    order: Seq<usize>,
    found: Seq<Option<Seq<CellView>>>,
    num_rows: nat,
) -> Result<BatchView, Error> {
    let list = kept(order, found, order.len());
    let fields = Seq::new(list.len(), |i: int| s.columns[list[i] as int].field);
    let columns = Seq::new(list.len(), |i: int| found[list[i] as int]->0);
    if batch::misplaced_null(Seq::new(fields.len(), |i: int| fields[i].nullable), columns) {
        Err(Error::BatchNonNullable)
    } else {
        Ok(BatchView { fields, columns, num_rows })
    }
}

/// The columns of a row group in the order that is asked for.
pub open spec fn read_group(
    s: SchemaView,
    projected: Seq<bool>,
    order: Seq<usize>,
    opened: Seq<BucketView>,
    num_rows: nat,
) -> Result<BatchView, Error> {
    match read_error(s, projected, opened, num_rows) {
        Some(e) => Err(e),
        None => assembled(
            s,
            order,
            columns_found(s, projected, opened, num_rows),
            num_rows,
        ),
    }
}

/// What a column reader was opened with.
pub open spec fn page_view(r: ColumnPageReader) -> PageView {
    PageView {
        kind: r.kind(),
        flag: r.flag(),
        constant: r.constant(),
        bytes: r.bytes(),
        info: r.info(),
    }
}

/// A reader of a column of the type.
pub open spec fn page_ok(r: ColumnPageReader, dt: DataType, num_rows: nat) -> bool {
    r.well_formed() && r.data_type() == dt && r.row_count() == num_rows
}

/// Opens a column, given what its block holds.
pub fn open_content(dt: &DataType, content: &[u8], num_rows: usize) -> (r: Result<
    ColumnPageReader,
    Error,
>)
    ensures
        match parse_content(*dt, content@, num_rows as nat) {
            Ok(p) => r is Ok && page_view(r->Ok_0) == p && page_ok(
                r->Ok_0,
                *dt,
                num_rows as nat,
            ),
            Err(e) => r is Err && r->Err_0 == e,
        },
{
    if content.len() < 2 {
        return Err(Error::PageContentShort);
    }
    let encoding: u8 = content[0];
    let has_nulls: bool = content[1] % 2 == 1;
    let mut pos: usize = 2;
    let mut const_value: Value = Value::Null;
    if encoding == ENCODING_CONST {
        match values::read_value_at(dt, content, 2, Error::PageConstTruncated) {
            Err(e) => {
                return Err(e);
            },
            Ok((v, size)) => {
                const_value = v;
                pos = 2 + size;
            },
        }
    }
    let data: Vec<u8> = bytes::copy_range(content, pos, content.len());
    assert(data@ =~= content@.skip(pos as int));
    ColumnPageReader::new(*dt, encoding, has_nulls, const_value, data, num_rows)
}

/// Opens a column, given its slot.
pub fn parse_column_slot(slot: &[u8], dt: &DataType, num_rows: usize) -> (r: Result<
    ColumnPageReader,
    Error,
>)
    ensures
        match r {
            Ok(p) => parse_slot(*dt, slot@, num_rows as nat) == Ok::<PageView, Error>(
                page_view(p),
            ) && page_ok(p, *dt, num_rows as nat),
            Err(e) => {
                ||| parse_slot(*dt, slot@, num_rows as nat) == Err::<PageView, Error>(e)
                ||| e == Error::Decompress && !is_sound_slot(slot@)
            },
        },
{
    proof {
        reveal(parse_slot);
    }
    if slot.len() == 0 {
        let r: Result<ColumnPageReader, Error> = ColumnPageReader::new(
            *dt,
            ENCODING_ALL_NULL,
            false,
            Value::Null,
            Vec::new(),
            num_rows,
        );
        return r;
    }
    let mut pos: usize = 0;
    proof {
        varint::lemma_parse_end(slot@, 0, 5);
    }
    let size: u32 = match varint::decode(slot, &mut pos) {
        Err(e) => {
            return Err(e);
        },
        Ok(v) => v,
    };
    let block: Vec<u8> = bytes::copy_range(slot, pos, slot.len());
    assert(block@ =~= slot@.skip(pos as int));
    let content: Vec<u8> = match blocks::inflate(&block, size as usize) {
        Err(e) => {
            return Err(e);
        },
        Ok(v) => v,
    };
    open_content(dt, &content, num_rows)
}

/// A bucket that was opened.
enum BucketState {
    Monolithic { reader: BucketReader },
    Paged { column_readers: Vec<Option<ColumnPageReader>> },
}

spec fn optional_page(r: Option<ColumnPageReader>) -> Option<PageView> {
    match r {
        Some(x) => Some(page_view(x)),
        None => None,
    }
}

spec fn optional_pages(rs: Seq<Option<ColumnPageReader>>) -> Seq<Option<PageView>> {
    Seq::new(rs.len(), |k: int| optional_page(rs[k]))
}

spec fn pages_ok(rs: Seq<Option<ColumnPageReader>>, dts: Seq<DataType>, num_rows: nat) -> bool {
    forall|k: int|
        0 <= k < rs.len() && #[trigger] rs[k] is Some ==> page_ok(rs[k]->0, dts[k], num_rows)
}

spec fn state_view(st: Option<BucketState>) -> BucketView {
    match st {
        None => BucketView::Absent,
        Some(BucketState::Monolithic { reader }) => BucketView::Monolithic {
            bytes: reader.bytes(),
            info: reader.info(),
        },
        Some(BucketState::Paged { column_readers }) => BucketView::Paged {
            pages: optional_pages(column_readers@),
        },
    }
}

spec fn state_ok(st: Option<BucketState>, dts: Seq<DataType>, num_rows: nat) -> bool {
    match st {
        None => true,
        Some(BucketState::Monolithic { reader }) => reader.well_formed() && reader.types() == dts
            && reader.row_count() == num_rows,
        Some(BucketState::Paged { column_readers }) => column_readers@.len() == dts.len()
            && pages_ok(column_readers@, dts, num_rows),
    }
}

spec fn state_views(sts: Seq<Option<BucketState>>) -> Seq<BucketView> {
    Seq::new(sts.len(), |b: int| state_view(sts[b]))
}

/// Reads the sizes of the slots from a directory of `n` columns. They have to
/// make up a bucket of `total_size` bytes.
fn read_directory(dir: &[u8], n: usize, total_size: usize) -> (r: Result<Vec<usize>, Error>)
    requires
        4 * n <= dir@.len(),
        4 * n <= total_size,
    ensures
        ({
            let sizes = slot_sizes(dir@, n as nat);
            match r {
                Ok(v) => {
                    &&& 4 * n + slots_size(sizes, n as nat) == total_size
                    &&& v@.len() == n
                    &&& forall|i: int| 0 <= i < n ==> #[trigger] v@[i] == sizes[i]
                },
                Err(e) => e == Error::PagedDirectoryMismatch && 4 * n + slots_size(
                    sizes,
                    n as nat,
                ) != total_size,
            }
        }),
{
    let ghost sizes = slot_sizes(dir@, n as nat);
    let mut v: Vec<usize> = Vec::new();
    let mut sum: u128 = 0;
    let mut i: usize = 0;
    while i < n
        invariant
            i <= n,
            4 * n <= dir@.len(),
            4 * n <= total_size,
            sizes == slot_sizes(dir@, n as nat),
            v@.len() == i,
            forall|j: int| 0 <= j < i ==> #[trigger] v@[j] == sizes[j],
            sum == slots_size(sizes, i as nat),
            sum <= i * 0xFFFF_FFFFu128,
        decreases n - i,
    {
        let size: u32 = bytes::read_le4(dir, 4 * i);
        v.push(size as usize);
        sum = sum + size as u128;
        i = i + 1;
    }
    if sum + (4 * n) as u128 != total_size as u128 {
        return Err(Error::PagedDirectoryMismatch);
    }
    Ok(v)
}

/// The first slots are no larger than all of them.
proof fn lemma_slots_size_monotone(sizes: Seq<nat>, k: nat, n: nat)
    requires
        k <= n,
    ensures
        slots_size(sizes, k) <= slots_size(sizes, n),
    decreases n,
{
    if k < n {
        lemma_slots_size_monotone(sizes, k, (n - 1) as nat);
    }
}

/// Opens all columns of a paged bucket that was read as a whole.
fn open_whole(
    buf: &[u8],
    sizes: &Vec<usize>,
    dts: &Vec<DataType>,
    num_rows: usize,
    Ghost(file): Ghost<Seq<u8>>,
    Ghost(offset): Ghost<int>,
    Ghost(want): Ghost<Seq<bool>>,
) -> (r: Result<Vec<Option<ColumnPageReader>>, Error>)
    requires
        sizes@.len() == dts@.len(),
        want.len() == dts@.len(),
        forall|k: int| 0 <= k < want.len() ==> #[trigger] want[k],
        4 * sizes@.len() + slots_size(size_views(sizes@), sizes@.len()) == buf@.len(),
        bytes::has_at(file, offset, buf@),
    ensures
        ({
            let slots = slots_at(file, offset, size_views(sizes@));
            let pages = pages_from(dts@, want, slots, num_rows as nat, 0, Seq::empty());
            match r {
                Ok(v) => pages == Ok::<Seq<Option<PageView>>, Error>(optional_pages(v@))
                    && v@.len() == dts@.len() && pages_ok(v@, dts@, num_rows as nat),
                Err(e) => {
                    ||| pages == Err::<Seq<Option<PageView>>, Error>(e)
                    ||| e == Error::Decompress && !are_sound_slots(want, slots)
                },
            }
        }),
{
    let ghost views = size_views(sizes@);
    let ghost slots = slots_at(file, offset, views);
    let n: usize = sizes.len();
    assert(buf.len() == buf@.len());
    let mut readers: Vec<Option<ColumnPageReader>> = Vec::new();
    let mut pos: usize = 4 * n;
    let mut k: usize = 0;
    assert(optional_pages(readers@) =~= Seq::<Option<PageView>>::empty());
    while k < n
        invariant
            k <= n == sizes@.len(),
            n == dts@.len(),
            want.len() == n,
            forall|j: int| 0 <= j < want.len() ==> #[trigger] want[j],
            views == size_views(sizes@),
            slots == slots_at(file, offset, views),
            4 * n + slots_size(views, n as nat) == buf@.len(),
            bytes::has_at(file, offset, buf@),
            pos == 4 * n + slots_size(views, k as nat),
            buf@.len() <= usize::MAX,
            readers@.len() == k,
            pages_ok(readers@, dts@, num_rows as nat),
            pages_from(dts@, want, slots, num_rows as nat, 0, Seq::empty()) == pages_from(
                dts@,
                want,
                slots,
                num_rows as nat,
                k as int,
                optional_pages(readers@),
            ),
        decreases n - k,
    {
        proof {
            lemma_slots_size_monotone(views, (k + 1) as nat, n as nat);
        }
        let ghost before = optional_pages(readers@);
        let slot: Vec<u8> = bytes::copy_range(buf, pos, pos + sizes[k]);
        assert(slot@ =~= slots[k as int]);
        match parse_column_slot(&slot, &dts[k], num_rows) {
            Err(e) => {
                return Err(e);
            },
            Ok(page) => {
                readers.push(Some(page));
                assert(optional_pages(readers@) =~= before.push(Some(page_view(page))));
            },
        }
        pos = pos + sizes[k];
        k = k + 1;
    }
    Ok(readers)
}

/// Sizes as numbers.
pub open spec fn size_views(v: Seq<usize>) -> Seq<nat> {
    Seq::new(v.len(), |i: int| v[i] as nat)
}


/// The first error in a list is the one that none comes before.
pub proof fn lemma_error_at(errors: Seq<Option<Error>>, k: int)
    requires
        0 <= k < errors.len(),
        forall|i: int| 0 <= i < k ==> #[trigger] errors[i] is None,
        errors[k] is Some,
    ensures
        first_error(errors) == errors[k],
    decreases errors.len(),
{
    if k < errors.len() - 1 {
        lemma_error_at(errors.drop_last(), k);
    } else {
        lemma_no_error(errors.drop_last());
    }
}

/// A list without errors has no first one.
pub proof fn lemma_no_error(errors: Seq<Option<Error>>)
    requires
        forall|i: int| 0 <= i < errors.len() ==> #[trigger] errors[i] is None,
    ensures
        first_error(errors) is None,
    decreases errors.len(),
{
    if errors.len() > 0 {
        assert(errors[errors.len() - 1] is None);
        lemma_no_error(errors.drop_last());
    }
}

/// Whether a bucket has a projected column, and whether all of its columns are
/// projected.
fn inspect(indices: &Vec<usize>, projected: &Vec<bool>) -> (r: (bool, bool))
    requires
        forall|k: int| 0 <= k < indices@.len() ==> #[trigger] indices@[k] < projected@.len(),
    ensures
        r.0 == exists|k: int| 0 <= k < indices@.len() && projected@[(#[trigger] indices@[k]) as int],
        r.1 == (r.0 && forall|k: int|
            0 <= k < indices@.len() ==> projected@[(#[trigger] indices@[k]) as int]),
{
    let mut any: bool = false;
    let mut all: bool = true;
    let mut k: usize = 0;
    while k < indices.len()
        invariant
            k <= indices@.len(),
            forall|j: int| 0 <= j < indices@.len() ==> #[trigger] indices@[j] < projected@.len(),
            any == exists|j: int| 0 <= j < k && projected@[(#[trigger] indices@[j]) as int],
            all == forall|j: int| 0 <= j < k ==> projected@[(#[trigger] indices@[j]) as int],
        decreases indices@.len() - k,
    {
        let ghost was = any;
        if projected[indices[k]] {
            any = true;
        } else {
            all = false;
        }
        proof {
            if was {
                let j = choose|j: int| 0 <= j < k && projected@[(#[trigger] indices@[j]) as int];
                assert(projected@[indices@[j] as int]);
            }
            assert(projected@[indices@[k as int] as int] ==> any);
        }
        k = k + 1;
    }
    (any, any && all)
}

/// What is to be read of the buckets of a row group in the first round.
struct FirstRound {
    /// How each bucket that is to be read is stored.
    layouts: Vec<BucketLayout>,
    whole: Vec<bool>,
    ranges: Vec<(u64, usize)>,
    /// The place of each bucket among the ranges.
    places: Vec<usize>,
}

spec fn first_round_ok(
    p: FirstRound,
    s: SchemaView,
    g: GroupView,
    projected: Seq<bool>,
    n: int,
    limit: int,
) -> bool {
    &&& p.layouts@.len() == n
    &&& p.whole@.len() == n
    &&& p.places@.len() == n
    &&& p.ranges@ == first_ranges(s, g, projected, n as nat)
    &&& input::lie_in(p.ranges@, limit)
    &&& forall|b: int|
        0 <= b < n ==> (#[trigger] p.layouts@[b])@ == needed_layout(s, g, projected, b)
            && p.whole@[b] == is_whole(s, projected, b) && (p.layouts@[b]@ is Empty || (
        p.places@[b] < p.ranges@.len() && p.ranges@[p.places@[b] as int] == (
            g.offsets[b],
            first_round_size(s, g, projected, b) as usize,
        ) && first_round_size(s, g, projected, b) <= usize::MAX))
}

/// A row group of a file whose buckets lie within the first `limit` bytes.
pub open spec fn group_ok(g: GroupView, s: SchemaView, limit: int) -> bool {
    &&& g.offsets.len() == s.num_buckets
    &&& g.layouts.len() == s.num_buckets
    &&& layout::within_limit(g.offsets, g.layouts, limit)
}

/// Plans the first round.
fn plan_first_round(
    schema: &MosaicSchema,
    meta: &RowGroupMeta,
    compression: u8,
    projected: &Vec<bool>,
    Ghost(f): Ghost<FileView>,
    Ghost(limit): Ghost<int>,
) -> (r: Result<FirstRound, Error>)
    requires
        schema.well_formed(),
        f.schema == schema@,
        f.compression == compression,
        group_ok(meta@, schema@, limit),
        limit <= u64::MAX,
        projected@.len() == schema.columns@.len(),
    ensures
        match stored_error(f, meta@, projected@) {
            Some(e) => r is Err && r->Err_0 == e,
            None => r is Ok && first_round_ok(
                r->Ok_0,
                schema@,
                meta@,
                projected@,
                schema.num_buckets as int,
                limit,
            ) && r->Ok_0.ranges@ == first_ranges(
                schema@,
                meta@,
                projected@,
                schema@.num_buckets,
            ) && forall|b: int|
                0 <= b < schema.num_buckets ==> #[trigger] layout_error(f, meta@, projected@, b)
                    is None,
        },
{
    let ghost s = schema@;
    let ghost g = meta@;
    let ghost errors = Seq::new(s.num_buckets, |b: int| layout_error(f, g, projected@, b));
    let n: usize = schema.num_buckets;
    let mut p: FirstRound = FirstRound {
        layouts: Vec::new(),
        whole: Vec::new(),
        ranges: Vec::new(),
        places: Vec::new(),
    };
    let mut b: usize = 0;
    while b < n
        invariant
            b <= n == schema.num_buckets,
            schema.well_formed(),
            s == schema@,
            g == meta@,
            f.schema == s,
            f.compression == compression,
            group_ok(g, s, limit),
            limit <= u64::MAX,
            projected@.len() == schema.columns@.len(),
            errors == Seq::new(s.num_buckets, |b: int| layout_error(f, g, projected@, b)),
            first_round_ok(p, s, g, projected@, b as int, limit),
            forall|c: int| 0 <= c < b ==> #[trigger] layout_error(f, g, projected@, c) is None,
        decreases n - b,
    {
        let indices: &Vec<usize> = &schema.bucket_to_global[b];
        assert(indices@ == image::bucket_members(s, b as int));
        assert(schema.columns.len() == s.columns.len());
        proof {
            schema::lemma_members(s.columns, b as nat, s.columns.len());
        }
        let (any, all): (bool, bool) = inspect(indices, projected);
        let layout: BucketLayout = if any {
            meta.bucket_layouts[b]
        } else {
            BucketLayout::Empty
        };
        assert(layout@ == needed_layout(s, g, projected@, b as int)) by {
            assert(g.layouts[b as int] == meta.bucket_layouts@[b as int]@);
        }
        assert(g.offsets[b as int] + g.layouts[b as int].sizes().0 <= limit);
        let size: usize = match layout {
            BucketLayout::Empty => 0,
            BucketLayout::Monolithic { compressed_size, .. } => compressed_size,
            BucketLayout::Paged { total_size } => {
                if compression != COMPRESSION_ZSTD {
                    proof {
                        lemma_error_at(errors, b as int);
                    }
                    return Err(Error::PagedNeedsZstd);
                }
                if indices.len() > total_size / 4 {
                    proof {
                        lemma_error_at(errors, b as int);
                    }
                    return Err(Error::PagedDirectorySize);
                }
                if all {
                    total_size
                } else {
                    indices.len() * 4
                }
            },
        };
        assert(layout_error(f, g, projected@, b as int) is None);
        let ghost before = p;
        let place: usize = p.ranges.len();
        if layout != BucketLayout::Empty {
            p.ranges.push((meta.bucket_offsets[b], size));
        }
        p.layouts.push(layout);
        p.whole.push(all);
        p.places.push(place);
        proof {
            assert forall|c: int| 0 <= c < b + 1 implies (#[trigger] p.layouts@[c])@
                == needed_layout(s, g, projected@, c) && p.whole@[c] == is_whole(
                s,
                projected@,
                c,
            ) && (p.layouts@[c]@ is Empty || (p.places@[c] < p.ranges@.len()
                && p.ranges@[p.places@[c] as int] == (
                g.offsets[c],
                first_round_size(s, g, projected@, c) as usize,
            ) && first_round_size(s, g, projected@, c) <= usize::MAX)) by {
                if c < b {
                    assert(p.layouts@[c] == before.layouts@[c]);
                    assert(p.whole@[c] == before.whole@[c]);
                    assert(p.places@[c] == before.places@[c]);
                }
            }
        }
        b = b + 1;
    }
    proof {
        lemma_no_error(errors);
    }
    Ok(p)
}


/// A paged bucket whose slots are read in the second round.
struct Partial {
    sizes: Vec<usize>,
    /// The place of each slot that is read among the ranges of the second round.
    slots: Vec<Option<usize>>,
}

spec fn partial_ok(
    p: Partial,
    f: FileView,
    file: Seq<u8>,
    g: GroupView,
    projected: Seq<bool>,
    b: int,
    ranges: Seq<(u64, usize)>,
) -> bool {
    let sizes = sizes_at(f, file, g, b);
    let want = wanted(f.schema, projected, b);
    &&& size_views(p.sizes@) == sizes
    &&& p.slots@.len() == sizes.len()
    &&& forall|k: int|
        0 <= k < sizes.len() && want[k] && p.sizes@[k] > 0 ==> {
            &&& #[trigger] p.slots@[k] is Some
            &&& p.slots@[k]->0 < ranges.len()
            &&& ranges[p.slots@[k]->0 as int] == (
                slot_start(g.offsets[b] as int, sizes, k) as u64,
                p.sizes@[k],
            )
            &&& slot_start(g.offsets[b] as int, sizes, k) + sizes[k] <= u64::MAX
        }
}

/// The buckets of a row group once the first round is read.
struct Opening {
    states: Vec<Option<BucketState>>,
    partials: Vec<Option<Partial>>,
    ranges: Vec<(u64, usize)>,
}

spec fn opened_ok(
    st: Option<BucketState>,
    p: Option<Partial>,
    f: FileView,
    file: Seq<u8>,
    g: GroupView,
    projected: Seq<bool>,
    b: int,
    ranges: Seq<(u64, usize)>,
) -> bool {
    &&& early_error(f, file, g, projected, b) is None
    &&& if is_partial(f.schema, g, projected, b) {
        p is Some && partial_ok(p->0, f, file, g, projected, b, ranges)
    } else {
        &&& p is None
        &&& Ok::<BucketView, Error>(state_view(st)) == open_bucket(f, file, g, projected, b)
        &&& state_ok(st, image::bucket_types(f.schema, b), g.num_rows)
    }
}

spec fn opening_ok(
    o: Opening,
    f: FileView,
    file: Seq<u8>,
    g: GroupView,
    projected: Seq<bool>,
    n: int,
    limit: int,
) -> bool {
    &&& o.states@.len() == n
    &&& o.partials@.len() == n
    &&& o.ranges@ == second_ranges(f, file, g, projected, n as nat)
    &&& input::lie_in(o.ranges@, limit)
    &&& forall|b: int|
        0 <= b < n ==> opened_ok(
            #[trigger] o.states@[b],
            o.partials@[b],
            f,
            file,
            g,
            projected,
            b,
            o.ranges@,
        )
}

/// Plans what is read of a paged bucket in the second round: the slots of its
/// projected columns.
fn plan_partial(
    ranges: &mut Vec<(u64, usize)>,
    sizes: Vec<usize>,
    offset: u64,
    indices: &Vec<usize>,
    projected: &Vec<bool>,
    Ghost(f): Ghost<FileView>,
    Ghost(file): Ghost<Seq<u8>>,
    Ghost(g): Ghost<GroupView>,
    Ghost(b): Ghost<int>,
    Ghost(limit): Ghost<int>,
) -> (p: Partial)
    requires
        input::lie_in(old(ranges)@, limit),
        size_views(sizes@) == sizes_at(f, file, g, b),
        indices@ == image::bucket_members(f.schema, b),
        offset == g.offsets[b],
        forall|k: int| 0 <= k < indices@.len() ==> #[trigger] indices@[k] < projected@.len(),
        offset + 4 * sizes@.len() + slots_size(size_views(sizes@), sizes@.len()) <= limit,
        limit <= u64::MAX,
    ensures
        input::lie_in(final(ranges)@, limit),
        final(ranges)@ == old(ranges)@ + slot_ranges(
            offset as int,
            sizes_at(f, file, g, b),
            wanted(f.schema, projected@, b),
            sizes@.len(),
        ),
        partial_ok(p, f, file, g, projected@, b, final(ranges)@),
{
    let ghost views = size_views(sizes@);
    let ghost want = wanted(f.schema, projected@, b);
    let ghost start = ranges@;
    let n: usize = sizes.len();
    assert(n == views.len() == sizes_at(f, file, g, b).len() == indices@.len());
    let mut slots: Vec<Option<usize>> = Vec::new();
    let mut pos: u64 = offset + 4 * n as u64;
    let mut k: usize = 0;
    while k < n
        invariant
            k <= n == sizes@.len(),
            n == indices@.len(),
            n == want.len(),
            views == size_views(sizes@),
            views == sizes_at(f, file, g, b),
            want == wanted(f.schema, projected@, b),
            indices@ == image::bucket_members(f.schema, b),
            offset == g.offsets[b],
            forall|j: int| 0 <= j < indices@.len() ==> #[trigger] indices@[j] < projected@.len(),
            offset + 4 * n + slots_size(views, n as nat) <= limit,
            limit <= u64::MAX,
            pos == offset + 4 * n + slots_size(views, k as nat),
            input::lie_in(ranges@, limit),
            ranges@ == start + slot_ranges(offset as int, views, want, k as nat),
            slots@.len() == k,
            forall|j: int|
                0 <= j < k && want[j] && sizes@[j] > 0 ==> {
                    &&& #[trigger] slots@[j] is Some
                    &&& slots@[j]->0 < ranges@.len()
                    &&& ranges@[slots@[j]->0 as int] == (
                        slot_start(g.offsets[b] as int, views, j) as u64,
                        sizes@[j],
                    )
                    &&& slot_start(g.offsets[b] as int, views, j) + views[j] <= u64::MAX
                },
        decreases n - k,
    {
        proof {
            lemma_slots_size_monotone(views, (k + 1) as nat, n as nat);
        }
        let ghost before = ranges@;
        let ghost had = slots@;
        if projected[indices[k]] && sizes[k] > 0 {
            slots.push(Some(ranges.len()));
            ranges.push((pos, sizes[k]));
        } else {
            slots.push(None);
        }
        proof {
            assert(ranges@ =~= start + slot_ranges(offset as int, views, want, (k + 1) as nat));
            assert forall|j: int| 0 <= j < k + 1 && want[j] && sizes@[j] > 0 implies {
                &&& #[trigger] slots@[j] is Some
                &&& slots@[j]->0 < ranges@.len()
                &&& ranges@[slots@[j]->0 as int] == (
                    slot_start(g.offsets[b] as int, views, j) as u64,
                    sizes@[j],
                )
                &&& slot_start(g.offsets[b] as int, views, j) + views[j] <= u64::MAX
            } by {
                if j < k {
                    assert(slots@[j] == had[j]);
                    assert(ranges@[had[j]->0 as int] == before[had[j]->0 as int]);
                }
            }
        }
        pos = pos + sizes[k] as u64;
        k = k + 1;
    }
    Partial { sizes, slots }
}

proof fn lemma_opened_prefix(
    o: Opening,
    f: FileView,
    file: Seq<u8>,
    g: GroupView,
    projected: Seq<bool>,
    n: int,
    limit: int,
    ranges: Seq<(u64, usize)>,
)
    requires
        opening_ok(o, f, file, g, projected, n, limit),
        o.ranges@.is_prefix_of(ranges),
    ensures
        forall|b: int|
            0 <= b < n ==> opened_ok(
                #[trigger] o.states@[b],
                o.partials@[b],
                f,
                file,
                g,
                projected,
                b,
                ranges,
            ),
{
    assert forall|b: int| 0 <= b < n implies opened_ok(
        #[trigger] o.states@[b],
        o.partials@[b],
        f,
        file,
        g,
        projected,
        b,
        ranges,
    ) by {
        if is_partial(f.schema, g, projected, b) {
            let p = o.partials@[b]->0;
            let sizes = sizes_at(f, file, g, b);
            let want = wanted(f.schema, projected, b);
            assert(opened_ok(
                o.states@[b],
                o.partials@[b],
                f,
                file,
                g,
                projected,
                b,
                o.ranges@,
            ));
            assert forall|k: int|
                0 <= k < sizes.len() && want[k] && p.sizes@[k] > 0 implies {
                &&& #[trigger] p.slots@[k] is Some
                &&& p.slots@[k]->0 < ranges.len()
                &&& ranges[p.slots@[k]->0 as int] == (
                    slot_start(g.offsets[b] as int, sizes, k) as u64,
                    p.sizes@[k],
                )
                &&& slot_start(g.offsets[b] as int, sizes, k) + sizes[k] <= u64::MAX
            } by {
                assert(o.ranges@[p.slots@[k]->0 as int] == ranges[p.slots@[k]->0 as int]);
            }
        }
    }
}

/// Opens a bucket that was read in one block.
fn open_monolithic(
    types: Vec<DataType>,
    block: &[u8],
    compression: u8,
    uncompressed_size: usize,
    num_rows: usize,
) -> (r: Result<BucketState, Error>)
    ensures
        ({
            let size = uncompressed_size as int;
            let found = match blocks::unpacked(compression, block@, size) {
                Err(e) => Err(e),
                Ok(raw) => match decoding::parse_bucket(types@, raw, num_rows as nat) {
                    Err(e) => Err(e),
                    Ok(info) => Ok(BucketView::Monolithic { bytes: raw, info }),
                },
            };
            match r {
                Ok(st) => found == Ok::<BucketView, Error>(state_view(Some(st))) && state_ok(
                    Some(st),
                    types@,
                    num_rows as nat,
                ),
                Err(e) => {
                    ||| found == Err::<BucketView, Error>(e)
                    ||| e == Error::Decompress && !blocks::is_sound_block(
                        compression,
                        block@,
                        size,
                    )
                },
            }
        }),
{
    let raw: Vec<u8> = match blocks::unpack(compression, block, uncompressed_size) {
        Err(e) => {
            return Err(e);
        },
        Ok(v) => v,
    };
    match BucketReader::new(types, raw, num_rows) {
        Err(e) => Err(e),
        Ok(reader) => Ok(BucketState::Monolithic { reader }),
    }
}


/// Opens the buckets with what the first round brought, and plans the second.
#[verifier::loop_isolation(false)]
fn open_first_round(
    schema: &MosaicSchema,
    meta: &RowGroupMeta,
    compression: u8,
    projected: &Vec<bool>,
    round: &FirstRound,
    bufs: &Vec<Vec<u8>>,
    Ghost(f): Ghost<FileView>,
    Ghost(file): Ghost<Seq<u8>>,
    Ghost(limit): Ghost<int>,
) -> (r: Result<Opening, Error>)
    requires
        schema.well_formed(),
        f.schema == schema@,
        f.compression == compression,
        group_ok(meta@, schema@, limit),
        limit <= u64::MAX,
        projected@.len() == schema.columns@.len(),
        first_round_ok(*round, schema@, meta@, projected@, schema.num_buckets as int, limit),
        forall|b: int|
            0 <= b < schema.num_buckets ==> #[trigger] layout_error(f, meta@, projected@, b)
                is None,
        bufs@.len() == round.ranges@.len(),
        forall|i: int|
            0 <= i < bufs@.len() ==> bytes::has_at(
                file,
                round.ranges@[i].0 as int,
                (#[trigger] bufs@[i])@,
            ) && bufs@[i]@.len() == round.ranges@[i].1,
    ensures
        ({
            let found = first_error(
                Seq::new(
                    schema@.num_buckets,
                    |b: int| early_error(f, file, meta@, projected@, b),
                ),
            );
            match r {
                Ok(o) => found is None && opening_ok(
                    o,
                    f,
                    file,
                    meta@,
                    projected@,
                    schema.num_buckets as int,
                    limit,
                ),
                Err(e) => {
                    ||| found == Some(e)
                    ||| e == Error::Decompress && !is_sound_group(f, file, meta@, projected@)
                },
            }
        }),
{
    let ghost s = schema@;
    let ghost g = meta@;
    let ghost errors = Seq::new(
        s.num_buckets,
        |b: int| early_error(f, file, g, projected@, b),
    );
    let n: usize = schema.num_buckets;
    let mut o: Opening = Opening { states: Vec::new(), partials: Vec::new(), ranges: Vec::new() };
    let mut b: usize = 0;
    while b < n
        invariant
            b <= n,
            opening_ok(o, f, file, g, projected@, b as int, limit),
        decreases n - b,
    {
        proof {
            assert forall|c: int| 0 <= c < b implies #[trigger] errors[c] is None by {
                assert(opened_ok(
                    o.states@[c],
                    o.partials@[c],
                    f,
                    file,
                    g,
                    projected@,
                    c,
                    o.ranges@,
                ));
            }
        }
        match open_one(
            schema,
            meta,
            compression,
            projected,
            round,
            bufs,
            b,
            &mut o,
            Ghost(f),
            Ghost(file),
            Ghost(limit),
        ) {
            Err(e) => {
                proof {
                    if early_error(f, file, g, projected@, b as int) == Some(e) {
                        lemma_error_at(errors, b as int);
                    } else {
                        assert(!is_sound_bucket(f, file, g, projected@, b as int));
                    }
                }
                return Err(e);
            },
            Ok(()) => {},
        }
        b = b + 1;
    }
    proof {
        assert forall|c: int| 0 <= c < errors.len() implies #[trigger] errors[c] is None by {
            assert(opened_ok(
                o.states@[c],
                o.partials@[c],
                f,
                file,
                g,
                projected@,
                c,
                o.ranges@,
            ));
        }
        lemma_no_error(errors);
    }
    Ok(o)
}

/// Opens a bucket with what the first round brought.
fn open_one(
    schema: &MosaicSchema,
    meta: &RowGroupMeta,
    compression: u8,
    projected: &Vec<bool>,
    round: &FirstRound,
    bufs: &Vec<Vec<u8>>,
    b: usize,
    o: &mut Opening,
    Ghost(f): Ghost<FileView>,
    Ghost(file): Ghost<Seq<u8>>,
    Ghost(limit): Ghost<int>,
) -> (r: Result<(), Error>)
    requires
        schema.well_formed(),
        f.schema == schema@,
        f.compression == compression,
        group_ok(meta@, schema@, limit),
        limit <= u64::MAX,
        projected@.len() == schema.columns@.len(),
        first_round_ok(*round, schema@, meta@, projected@, schema.num_buckets as int, limit),
        b < schema.num_buckets,
        layout_error(f, meta@, projected@, b as int) is None,
        bufs@.len() == round.ranges@.len(),
        forall|i: int|
            0 <= i < bufs@.len() ==> bytes::has_at(
                file,
                round.ranges@[i].0 as int,
                (#[trigger] bufs@[i])@,
            ) && bufs@[i]@.len() == round.ranges@[i].1,
        opening_ok(*old(o), f, file, meta@, projected@, b as int, limit),
    ensures
        match r {
            Ok(()) => early_error(f, file, meta@, projected@, b as int) is None && opening_ok(
                *final(o),
                f,
                file,
                meta@,
                projected@,
                b + 1,
                limit,
            ),
            Err(e) => {
                ||| early_error(f, file, meta@, projected@, b as int) == Some(e)
                ||| e == Error::Decompress && !is_sound_bucket(
                    f,
                    file,
                    meta@,
                    projected@,
                    b as int,
                )
            },
        },
{
    let ghost s = schema@;
    let ghost g = meta@;
    let ghost offset = g.offsets[b as int] as int;
    let ghost dts = image::bucket_types(s, b as int);
    let ghost before = *o;
    proof {
        reveal(open_bucket);
        reveal(is_sound_bucket);
    }
    let indices: &Vec<usize> = &schema.bucket_to_global[b];
    assert(indices@ == image::bucket_members(s, b as int));
    assert(schema.columns.len() == s.columns.len());
    proof {
        schema::lemma_members(s.columns, b as nat, s.columns.len());
        assert(round.layouts@[b as int]@ == needed_layout(s, g, projected@, b as int));
        assert(g.offsets[b as int] + g.layouts[b as int].sizes().0 <= limit);
    }
    match round.layouts[b] {
        BucketLayout::Empty => {
            o.states.push(None);
            o.partials.push(None);
        },
        BucketLayout::Monolithic { compressed_size, uncompressed_size } => {
            let buf: &Vec<u8> = &bufs[round.places[b]];
            assert(buf@ =~= file.subrange(offset, offset + compressed_size));
            let types: Vec<DataType> = schema.types_of(indices);
            assert(types@ =~= dts);
            match open_monolithic(types, buf, compression, uncompressed_size, meta.num_rows) {
                Err(e) => {
                    return Err(e);
                },
                Ok(state) => {
                    o.states.push(Some(state));
                    o.partials.push(None);
                },
            }
        },
        BucketLayout::Paged { total_size } => {
            let buf: &Vec<u8> = &bufs[round.places[b]];
            let n: usize = indices.len();
            let ghost views = sizes_at(f, file, g, b as int);
            proof {
                lemma_directory(file, offset, buf@, n as nat);
            }
            let sizes: Vec<usize> = match read_directory(buf, n, total_size) {
                Err(e) => {
                    return Err(e);
                },
                Ok(v) => v,
            };
            assert(size_views(sizes@) =~= views);
            if round.whole[b] {
                let types: Vec<DataType> = schema.types_of(indices);
                assert(types@ =~= dts);
                let ghost want = wanted(s, projected@, b as int);
                match open_whole(
                    buf,
                    &sizes,
                    &types,
                    meta.num_rows,
                    Ghost(file),
                    Ghost(offset),
                    Ghost(want),
                ) {
                    Err(e) => {
                        return Err(e);
                    },
                    Ok(column_readers) => {
                        o.states.push(Some(BucketState::Paged { column_readers }));
                        o.partials.push(None);
                    },
                }
            } else {
                let p: Partial = plan_partial(
                    &mut o.ranges,
                    sizes,
                    meta.bucket_offsets[b],
                    indices,
                    projected,
                    Ghost(f),
                    Ghost(file),
                    Ghost(g),
                    Ghost(b as int),
                    Ghost(limit),
                );
                o.states.push(None);
                o.partials.push(Some(p));
            }
        },
    }
    proof {
        lemma_opened_prefix(before, f, file, g, projected@, b as int, limit, o.ranges@);
        assert(opened_ok(
            o.states@[b as int],
            o.partials@[b as int],
            f,
            file,
            g,
            projected@,
            b as int,
            o.ranges@,
        ));
        assert forall|c: int| 0 <= c < b + 1 implies opened_ok(
            #[trigger] o.states@[c],
            o.partials@[c],
            f,
            file,
            g,
            projected@,
            c,
            o.ranges@,
        ) by {
            if c < b {
                assert(o.states@[c] == before.states@[c]);
                assert(o.partials@[c] == before.partials@[c]);
            }
        }
    }
    Ok(())
}

/// The directory at the start of a buffer is that of the bucket in the file.
proof fn lemma_directory(file: Seq<u8>, offset: int, buf: Seq<u8>, n: nat)
    requires
        bytes::has_at(file, offset, buf),
        4 * n <= buf.len(),
    ensures
        slot_sizes(buf, n) == slot_sizes(file.subrange(offset, offset + 4 * n), n),
{
    let dir = file.subrange(offset, offset + 4 * n);
    assert forall|i: int| 0 <= i < n implies slot_sizes(buf, n)[i] == slot_sizes(dir, n)[i] by {
        assert(buf.subrange(4 * i, 4 * i + 4) =~= dir.subrange(4 * i, 4 * i + 4));
    }
    assert(slot_sizes(buf, n) =~= slot_sizes(dir, n));
}


/// Whether buffers are what was read of the ranges of the second round, joined.
spec fn second_round_ok(
    ranges: Seq<(u64, usize)>,
    joined: Seq<(u64, usize)>,
    homes: Seq<usize>,
    bufs: Seq<Vec<u8>>,
    file: Seq<u8>,
) -> bool {
    &&& homes.len() == ranges.len()
    &&& forall|j: int|
        0 <= j < homes.len() ==> #[trigger] homes[j] < joined.len() && input::lies_within(
            ranges[j],
            joined[homes[j] as int],
        )
    &&& bufs.len() == joined.len()
    &&& forall|i: int|
        0 <= i < bufs.len() ==> bytes::has_at(file, joined[i].0 as int, (#[trigger] bufs[i])@)
            && bufs[i]@.len() == joined[i].1
}

/// One range of the second round.
fn take_slot(
    j: usize,
    round: &Opening,
    joined: &Vec<(u64, usize)>,
    homes: &Vec<usize>,
    bufs: &Vec<Vec<u8>>,
    Ghost(file): Ghost<Seq<u8>>,
) -> (slot: Vec<u8>)
    requires
        j < round.ranges@.len(),
        second_round_ok(round.ranges@, joined@, homes@, bufs@, file),
    ensures
        slot@ == file.subrange(
            round.ranges@[j as int].0 as int,
            round.ranges@[j as int].0 + round.ranges@[j as int].1,
        ),
{
    let home: usize = homes[j];
    assert(input::lies_within(round.ranges@[j as int], joined@[home as int]));
    assert(bytes::has_at(file, joined@[home as int].0 as int, bufs@[home as int]@));
    let buf: &Vec<u8> = &bufs[home];
    assert(buf.len() == joined@[home as int].1);
    let start: usize = (round.ranges[j].0 - joined[home].0) as usize;
    let slot: Vec<u8> = bytes::copy_range(buf, start, start + round.ranges[j].1);
    proof {
        let at = round.ranges@[j as int].0 as int;
        assert(slot@ =~= file.subrange(at, at + round.ranges@[j as int].1));
    }
    slot
}

/// Opens the projected columns of a paged bucket with what the second round brought.
fn open_partial(
    p: &Partial,
    types: &Vec<DataType>,
    indices: &Vec<usize>,
    projected: &Vec<bool>,
    round: &Opening,
    joined: &Vec<(u64, usize)>,
    homes: &Vec<usize>,
    bufs: &Vec<Vec<u8>>,
    num_rows: usize,
    Ghost(f): Ghost<FileView>,
    Ghost(file): Ghost<Seq<u8>>,
    Ghost(g): Ghost<GroupView>,
    Ghost(b): Ghost<int>,
) -> (r: Result<Vec<Option<ColumnPageReader>>, Error>)
    requires
        partial_ok(*p, f, file, g, projected@, b, round.ranges@),
        indices@ == image::bucket_members(f.schema, b),
        types@ == image::bucket_types(f.schema, b),
        forall|k: int| 0 <= k < indices@.len() ==> #[trigger] indices@[k] < projected@.len(),
        second_round_ok(round.ranges@, joined@, homes@, bufs@, file),
    ensures
        ({
            let want = wanted(f.schema, projected@, b);
            let slots = slots_at(file, g.offsets[b] as int, sizes_at(f, file, g, b));
            let pages = pages_from(types@, want, slots, num_rows as nat, 0, Seq::empty());
            match r {
                Ok(v) => pages == Ok::<Seq<Option<PageView>>, Error>(optional_pages(v@))
                    && v@.len() == types@.len() && pages_ok(v@, types@, num_rows as nat),
                Err(e) => {
                    ||| pages == Err::<Seq<Option<PageView>>, Error>(e)
                    ||| e == Error::Decompress && !are_sound_slots(want, slots)
                },
            }
        }),
{
    let ghost want = wanted(f.schema, projected@, b);
    let ghost sizes = sizes_at(f, file, g, b);
    let ghost offset = g.offsets[b] as int;
    let ghost slots = slots_at(file, offset, sizes);
    let n: usize = indices.len();
    assert(n == types@.len() == sizes.len() == size_views(p.sizes@).len());
    let mut readers: Vec<Option<ColumnPageReader>> = Vec::new();
    let mut k: usize = 0;
    assert(optional_pages(readers@) =~= Seq::<Option<PageView>>::empty());
    while k < n
        invariant
            k <= n == types@.len(),
            n == indices@.len(),
            n == sizes.len(),
            n == p.sizes@.len(),
            n == want.len(),
            want == wanted(f.schema, projected@, b),
            sizes == sizes_at(f, file, g, b),
            offset == g.offsets[b] as int,
            slots == slots_at(file, offset, sizes),
            partial_ok(*p, f, file, g, projected@, b, round.ranges@),
            indices@ == image::bucket_members(f.schema, b),
            forall|j: int| 0 <= j < indices@.len() ==> #[trigger] indices@[j] < projected@.len(),
            second_round_ok(round.ranges@, joined@, homes@, bufs@, file),
            readers@.len() == k,
            pages_ok(readers@, types@, num_rows as nat),
            pages_from(types@, want, slots, num_rows as nat, 0, Seq::empty()) == pages_from(
                types@,
                want,
                slots,
                num_rows as nat,
                k as int,
                optional_pages(readers@),
            ),
        decreases n - k,
    {
        let ghost before = optional_pages(readers@);
        assert(sizes[k as int] == size_views(p.sizes@)[k as int]);
        if !projected[indices[k]] {
            readers.push(None);
            assert(optional_pages(readers@) =~= before.push(None));
        } else {
            let slot: Vec<u8> = if p.sizes[k] > 0 {
                assert(p.slots@[k as int] is Some);
                match p.slots[k] {
                    Some(j) => take_slot(j, round, joined, homes, bufs, Ghost(file)),
                    None => Vec::new(),
                }
            } else {
                Vec::new()
            };
            proof {
                let at = slot_start(offset, sizes, k as int);
                if p.sizes@[k as int] > 0 {
                    assert(round.ranges@[p.slots@[k as int]->0 as int] == (
                        at as u64,
                        p.sizes@[k as int],
                    ));
                    assert(slot@ == file.subrange(at, at + sizes[k as int]));
                } else {
                    assert(slot@ =~= slots[k as int]);
                }
            }
            match parse_column_slot(&slot, &types[k], num_rows) {
                Err(e) => {
                    return Err(e);
                },
                Ok(page) => {
                    readers.push(Some(page));
                    assert(optional_pages(readers@) =~= before.push(Some(page_view(page))));
                },
            }
        }
        k = k + 1;
    }
    Ok(readers)
}

/// Opens the buckets that wait for the second round with what it brought.
#[verifier::loop_isolation(false)]
fn open_second_round(
    schema: &MosaicSchema,
    meta: &RowGroupMeta,
    projected: &Vec<bool>,
    round: Opening,
    joined: &Vec<(u64, usize)>,
    homes: &Vec<usize>,
    bufs: &Vec<Vec<u8>>,
    Ghost(f): Ghost<FileView>,
    Ghost(file): Ghost<Seq<u8>>,
    Ghost(limit): Ghost<int>,
) -> (r: Result<Vec<Option<BucketState>>, Error>)
    requires
        schema.well_formed(),
        f.schema == schema@,
        projected@.len() == schema.columns@.len(),
        group_ok(meta@, schema@, limit),
        opening_ok(round, f, file, meta@, projected@, schema.num_buckets as int, limit),
        second_round_ok(round.ranges@, joined@, homes@, bufs@, file),
    ensures
        ({
            let found = first_error(
                Seq::new(
                    schema@.num_buckets,
                    |b: int| late_error(f, file, meta@, projected@, b),
                ),
            );
            match r {
                Ok(v) => {
                    &&& found is None
                    &&& v@.len() == schema.num_buckets
                    &&& forall|b: int|
                        0 <= b < schema.num_buckets ==> Ok::<BucketView, Error>(
                            state_view(#[trigger] v@[b]),
                        ) == open_bucket(f, file, meta@, projected@, b) && state_ok(
                            v@[b],
                            image::bucket_types(f.schema, b),
                            meta@.num_rows,
                        )
                },
                Err(e) => {
                    ||| found == Some(e)
                    ||| e == Error::Decompress && !is_sound_group(f, file, meta@, projected@)
                },
            }
        }),
{
    let ghost s = schema@;
    let ghost g = meta@;
    let ghost errors = Seq::new(
        s.num_buckets,
        |b: int| late_error(f, file, g, projected@, b),
    );
    proof {
        reveal(open_bucket);
        reveal(is_sound_bucket);
    }
    let n: usize = schema.num_buckets;
    let mut round: Opening = round;
    let ghost first = round;
    let mut states: Vec<Option<BucketState>> = Vec::new();
    std::mem::swap(&mut states, &mut round.states);
    let mut b: usize = 0;
    while b < n
        invariant
            b <= n,
            round.partials == first.partials,
            round.ranges == first.ranges,
            states@.len() == n,
            forall|c: int| b <= c < n ==> #[trigger] states@[c] == first.states@[c],
            forall|c: int|
                0 <= c < b ==> Ok::<BucketView, Error>(state_view(#[trigger] states@[c]))
                    == open_bucket(f, file, g, projected@, c) && state_ok(
                    states@[c],
                    image::bucket_types(f.schema, c),
                    g.num_rows,
                ),
            forall|c: int| 0 <= c < b ==> #[trigger] errors[c] is None,
        decreases n - b,
    {
        assert(opened_ok(
            first.states@[b as int],
            first.partials@[b as int],
            f,
            file,
            g,
            projected@,
            b as int,
            first.ranges@,
        ));
        assert(states@[b as int] == first.states@[b as int]);
        let ghost before = states@;
        if let Some(p) = &round.partials[b] {
            let indices: &Vec<usize> = &schema.bucket_to_global[b];
            assert(indices@ == image::bucket_members(s, b as int));
            assert(schema.columns.len() == s.columns.len());
            proof {
                schema::lemma_members(s.columns, b as nat, s.columns.len());
            }
            let types: Vec<DataType> = schema.types_of(indices);
            assert(types@ =~= image::bucket_types(s, b as int));
            match open_partial(
                p,
                &types,
                indices,
                projected,
                &round,
                joined,
                homes,
                bufs,
                meta.num_rows,
                Ghost(f),
                Ghost(file),
                Ghost(g),
                Ghost(b as int),
            ) {
                Err(e) => {
                    proof {
                        if late_error(f, file, g, projected@, b as int) == Some(e) {
                            lemma_error_at(errors, b as int);
                        } else {
                            assert(!is_sound_bucket(f, file, g, projected@, b as int));
                        }
                    }
                    return Err(e);
                },
                Ok(column_readers) => {
                    states.set(b, Some(BucketState::Paged { column_readers }));
                },
            }
        }
        assert(errors[b as int] is None);
        assert forall|c: int| 0 <= c < n && c != b implies #[trigger] states@[c] == before[c] by {}
        b = b + 1;
    }
    proof {
        lemma_no_error(errors);
    }
    Ok(states)
}


/// There is a second round only where there is a first.
proof fn lemma_second_after_first(
    f: FileView,
    file: Seq<u8>,
    g: GroupView,
    projected: Seq<bool>,
    n: nat,
)
    requires
        first_ranges(f.schema, g, projected, n).len() == 0,
    ensures
        second_ranges(f, file, g, projected, n).len() == 0,
    decreases n,
{
    if n > 0 {
        lemma_second_after_first(f, file, g, projected, (n - 1) as nat);
    }
}

proof fn lemma_not_stored(s: SchemaView, g: GroupView, projected: Seq<bool>, n: nat, b: int)
    requires
        first_ranges(s, g, projected, n).len() == 0,
        0 <= b < n,
    ensures
        needed_layout(s, g, projected, b) is Empty,
    decreases n,
{
    if b < n - 1 {
        lemma_not_stored(s, g, projected, (n - 1) as nat, b);
    }
}

/// A row group of which nothing has to be read opens.
pub proof fn lemma_nothing_read(f: FileView, file: Seq<u8>, g: GroupView, projected: Seq<bool>)
    requires
        first_ranges(f.schema, g, projected, f.schema.num_buckets).len() == 0,
    ensures
        open_buckets(f, file, g, projected) is Ok,
        is_sound_group(f, file, g, projected),
{
    let n = f.schema.num_buckets;
    let stored = Seq::new(n, |b: int| layout_error(f, g, projected, b));
    let early = Seq::new(n, |b: int| early_error(f, file, g, projected, b));
    let late = Seq::new(n, |b: int| late_error(f, file, g, projected, b));
    assert forall|b: int| 0 <= b < n implies #[trigger] stored[b] is None && early[b] is None
        && late[b] is None && is_sound_bucket(f, file, g, projected, b) by {
        lemma_not_stored(f.schema, g, projected, n, b);
        reveal(open_bucket);
        reveal(is_sound_bucket);
    }
    assert forall|b: int| 0 <= b < n implies #[trigger] early[b] is None by {
        assert(stored[b] is None);
    }
    assert forall|b: int| 0 <= b < n implies #[trigger] late[b] is None by {
        assert(stored[b] is None);
    }
    assert forall|b: int| 0 <= b < n implies #[trigger] is_sound_bucket(
        f,
        file,
        g,
        projected,
        b,
    ) by {
        assert(stored[b] is None);
    }
    lemma_no_error(stored);
    lemma_no_error(early);
    lemma_no_error(late);
}

/// Where no column is projected, nothing has to be read.
pub proof fn lemma_none_projected(s: SchemaView, g: GroupView, projected: Seq<bool>, n: nat)
    requires
        s.columns.len() <= usize::MAX,
        projected.len() == s.columns.len(),
        forall|c: int| 0 <= c < projected.len() ==> !(#[trigger] projected[c]),
    ensures
        first_ranges(s, g, projected, n).len() == 0,
    decreases n,
{
    if n > 0 {
        lemma_none_projected(s, g, projected, (n - 1) as nat);
        schema::lemma_members(s.columns, (n - 1) as nat, s.columns.len());
    }
}

/// Columns of a schema, each at most once.
pub open spec fn is_selection(order: Seq<usize>, num_columns: nat) -> bool {
    &&& forall|i: int| 0 <= i < order.len() ==> #[trigger] order[i] < num_columns
    &&& forall|i: int, j: int|
        0 <= i < j < order.len() ==> #[trigger] order[i] != #[trigger] order[j]
}

/// The contents of a batch.
pub open spec fn batch_view(b: RecordBatch) -> BatchView {
    BatchView {
        fields: schema::field_views(b.fields@),
        columns: b.cells(),
        num_rows: b.num_rows as nat,
    }
}

/// Reads the projected columns of a row group.
pub struct RowGroupReader {
    bucket_states: Vec<Option<BucketState>>,
    schema: MosaicSchema,
    projected: Vec<bool>,
    order: Vec<usize>,
    num_rows: usize,
}

impl RowGroupReader {
    /// The columns of the file.
    pub closed spec fn schema(&self) -> SchemaView {
        self.schema@
    }

    /// Which columns are read.
    pub closed spec fn projected(&self) -> Seq<bool> {
        self.projected@
    }

    /// The order in which they come out.
    pub closed spec fn order(&self) -> Seq<usize> {
        self.order@
    }

    /// The buckets of the row group.
    pub closed spec fn opened(&self) -> Seq<BucketView> {
        state_views(self.bucket_states@)
    }

    /// How many rows there are.
    pub closed spec fn row_count(&self) -> nat {
        self.num_rows as nat
    }

    /// The parts of the reader fit together.
    pub closed spec fn well_formed(&self) -> bool {
        &&& self.schema.well_formed()
        &&& self.projected@.len() == self.schema.columns@.len()
        &&& is_selection(self.order@, self.schema.columns@.len())
        &&& self.bucket_states@.len() == self.schema.num_buckets
        &&& forall|b: int|
            0 <= b < self.bucket_states@.len() ==> state_ok(
                #[trigger] self.bucket_states@[b],
                image::bucket_types(self.schema@, b),
                self.num_rows as nat,
            )
    }

    /// Opens a row group of a file, given how it is stored.
    pub(crate) fn open<I: InputFile>(
        file: &I,
        schema: &MosaicSchema,
        meta: &RowGroupMeta,
        compression: u8,
        projected: Vec<bool>,
        order: Vec<usize>,
        Ghost(f): Ghost<FileView>,
    ) -> (r: Result<RowGroupReader, Error>)
        requires
            schema.well_formed(),
            f.schema == schema@,
            f.compression == compression,
            group_ok(meta@, schema@, u64::MAX as int),
            group_ok(meta@, schema@, file.contents().len() as int),
            projected@.len() == schema.columns@.len(),
            is_selection(order@, schema.columns@.len()),
        ensures
            match r {
                Ok(rg) => {
                    &&& rg.well_formed()
                    &&& open_buckets(f, file.contents(), meta@, projected@) == Ok::<
                        Seq<BucketView>,
                        Error,
                    >(rg.opened())
                    &&& rg.schema() == schema@
                    &&& rg.projected() == projected@
                    &&& rg.order() == order@
                    &&& rg.row_count() == meta.num_rows
                },
                Err(e) => {
                    ||| open_buckets(f, file.contents(), meta@, projected@) == Err::<
                        Seq<BucketView>,
                        Error,
                    >(e)
                    ||| may_fail(
                        e,
                        file.dependable(),
                        file.failures(),
                        f,
                        file.contents(),
                        meta@,
                        projected@,
                    )
                },
            },
            first_ranges(f.schema, meta@, projected@, f.schema.num_buckets).len() == 0 ==> r is Ok,
    {
        let ghost contents = file.contents();
        proof {
            if first_ranges(f.schema, meta@, projected@, f.schema.num_buckets).len() == 0 {
                lemma_nothing_read(f, contents, meta@, projected@);
            }
        }
        let ghost limit = if contents.len() <= u64::MAX {
            contents.len() as int
        } else {
            u64::MAX as int
        };
        let round: FirstRound = match plan_first_round(
            schema,
            meta,
            compression,
            &projected,
            Ghost(f),
            Ghost(limit),
        ) {
            Err(e) => {
                return Err(e);
            },
            Ok(v) => v,
        };
        let bufs: Vec<Vec<u8>> = match file.read_ranges(&round.ranges) {
            Err(e) => {
                return Err(e);
            },
            Ok(v) => v,
        };
        let opening: Opening = match open_first_round(
            schema,
            meta,
            compression,
            &projected,
            &round,
            &bufs,
            Ghost(f),
            Ghost(contents),
            Ghost(limit),
        ) {
            Err(e) => {
                return Err(e);
            },
            Ok(v) => v,
        };
        let (joined, homes): (Vec<(u64, usize)>, Vec<usize>) = input::join_adjacent(
            &opening.ranges,
        );
        proof {
            input::lemma_joined_in(opening.ranges@, opening.ranges@.len(), limit);
            if round.ranges@.len() == 0 {
                lemma_second_after_first(f, contents, meta@, projected@, f.schema.num_buckets);
            }
        }
        let slots: Vec<Vec<u8>> = if joined.len() == 0 {
            Vec::new()
        } else {
            match file.read_ranges(&joined) {
                Err(e) => {
                    return Err(e);
                },
                Ok(v) => v,
            }
        };
        let bucket_states: Vec<Option<BucketState>> = match open_second_round(
            schema,
            meta,
            &projected,
            opening,
            &joined,
            &homes,
            &slots,
            Ghost(f),
            Ghost(contents),
            Ghost(limit),
        ) {
            Err(e) => {
                return Err(e);
            },
            Ok(v) => v,
        };
        let rg: RowGroupReader = RowGroupReader {
            bucket_states,
            schema: schema.duplicate(),
            projected,
            order,
            num_rows: meta.num_rows,
        };
        proof {
            assert(rg.opened() =~= Seq::new(
                f.schema.num_buckets,
                |b: int| open_bucket(f, contents, meta@, projected@, b)->Ok_0,
            ));
            assert(rg.schema.columns.len() == schema.columns.len()) by {
                assert(rg.schema@.columns.len() == schema@.columns.len());
            }
        }
        Ok(rg)
    }

    /// How many rows there are.
    pub fn num_rows(&self) -> (n: usize)
        ensures
            n == self.row_count(),
    {
        self.num_rows
    }
}


/// The cells of a column that may be missing.
pub open spec fn optional_cells(c: Option<Vec<Cell>>) -> Option<Seq<CellView>> {
    match c {
        Some(v) => Some(values::cells(v@)),
        None => None,
    }
}

/// The cells of columns that may be missing.
pub open spec fn optional_columns(cs: Seq<Option<Vec<Cell>>>) -> Seq<Option<Seq<CellView>>> {
    Seq::new(cs.len(), |k: int| optional_cells(cs[k]))
}

/// Columns of `num_rows` rows, where they are there.
pub open spec fn full(cs: Seq<Option<Seq<CellView>>>, num_rows: nat) -> bool {
    forall|k: int| 0 <= k < cs.len() && #[trigger] cs[k] is Some ==> cs[k]->0.len() == num_rows
}

proof fn lemma_page_columns_len(
    dts: Seq<DataType>,
    pages: Seq<Option<PageView>>,
    num_rows: nat,
    k: int,
    acc: Seq<Option<Seq<CellView>>>,
)
    requires
        0 <= k <= dts.len(),
        acc.len() == k,
        full(acc, num_rows),
    ensures
        match page_columns_from(dts, pages, num_rows, k, acc) {
            Ok(cs) => cs.len() == dts.len() && full(cs, num_rows),
            Err(_) => true,
        },
    decreases dts.len() - k,
{
    if k < dts.len() {
        match pages[k] {
            None => {
                lemma_page_columns_len(dts, pages, num_rows, k + 1, acc.push(None));
            },
            Some(p) => {
                decoding::lemma_column_len(
                    dts[k],
                    p.kind,
                    p.flag,
                    p.info.bitmap,
                    p.constant,
                    p.info.dict,
                    p.bytes,
                    p.info.cursor,
                    num_rows,
                );
                if let Ok(cs) = decoding::page_cells(
                    dts[k],
                    p.kind,
                    p.flag,
                    p.constant,
                    p.info,
                    p.bytes,
                    num_rows,
                ) {
                    lemma_page_columns_len(dts, pages, num_rows, k + 1, acc.push(Some(cs)));
                }
            },
        }
    }
}

/// The columns of a bucket are there or not, and those that are there have a cell
/// for each row.
pub proof fn lemma_read_bucket_len(
    dts: Seq<DataType>,
    want: Seq<bool>,
    o: BucketView,
    num_rows: nat,
)
    ensures
        match read_bucket(dts, want, o, num_rows) {
            Ok(cs) => cs.len() == dts.len() && full(cs, num_rows),
            Err(_) => true,
        },
{
    match o {
        BucketView::Absent => {},
        BucketView::Monolithic { bytes, info } => {
            decoding::lemma_bucket_columns_len(dts, info, bytes, num_rows);
        },
        BucketView::Paged { pages } => {
            lemma_page_columns_len(dts, pages, num_rows, 0, Seq::empty());
        },
    }
}

/// Keeps the projected columns of a bucket.
fn keep_wanted(columns: Vec<Vec<Cell>>, indices: &Vec<usize>, projected: &Vec<bool>) -> (r: Vec<
    Option<Vec<Cell>>,
>)
    requires
        columns@.len() == indices@.len(),
        forall|k: int| 0 <= k < indices@.len() ==> #[trigger] indices@[k] < projected@.len(),
    ensures
        optional_columns(r@) == Seq::new(
            indices@.len(),
            |k: int| if projected@[indices@[k] as int] {
                Some(bucket_reader::column_views(columns@)[k])
            } else {
                None
            },
        ),
{
    let ghost all = columns@;
    let ghost goal = Seq::new(
        indices@.len(),
        |k: int| if projected@[indices@[k] as int] {
            Some(bucket_reader::column_views(all)[k])
        } else {
            None
        },
    );
    let n: usize = indices.len();
    let mut columns: Vec<Vec<Cell>> = columns;
    let mut r: Vec<Option<Vec<Cell>>> = Vec::new();
    let mut i: usize = 0;
    while i < n
        invariant
            i <= n,
            r@.len() == i,
        decreases n - i,
    {
        r.push(None);
        i = i + 1;
    }
    let mut k: usize = n;
    while k > 0
        invariant
            k <= n == indices@.len(),
            n == all.len(),
            r@.len() == n,
            columns@ == all.take(k as int),
            forall|j: int| 0 <= j < indices@.len() ==> #[trigger] indices@[j] < projected@.len(),
            goal == Seq::new(
                indices@.len(),
                |k: int| if projected@[indices@[k] as int] {
                    Some(bucket_reader::column_views(all)[k])
                } else {
                    None
                },
            ),
            forall|j: int| k <= j < n ==> optional_cells(#[trigger] r@[j]) == goal[j],
        decreases k,
    {
        let column: Option<Vec<Cell>> = columns.pop();
        k = k - 1;
        assert(column == Some(all[k as int]));
        assert(columns@ =~= all.take(k as int));
        if projected[indices[k]] {
            r.set(k, column);
        } else {
            r.set(k, None);
        }
    }
    assert(optional_columns(r@) =~= goal);
    r
}

/// Reads the columns of a paged bucket.
fn read_pages(readers: &Vec<Option<ColumnPageReader>>, Ghost(dts): Ghost<Seq<DataType>>, Ghost(
    num_rows,
): Ghost<nat>) -> (r: Result<Vec<Option<Vec<Cell>>>, Error>)
    requires
        readers@.len() == dts.len(),
        pages_ok(readers@, dts, num_rows),
    ensures
        match page_columns_from(dts, optional_pages(readers@), num_rows, 0, Seq::empty()) {
            Ok(cs) => r is Ok && optional_columns(r->Ok_0@) == cs,
            Err(e) => r is Err && r->Err_0 == e,
        },
{
    let ghost pages = optional_pages(readers@);
    let mut out: Vec<Option<Vec<Cell>>> = Vec::new();
    let mut k: usize = 0;
    assert(optional_columns(out@) =~= Seq::<Option<Seq<CellView>>>::empty());
    while k < readers.len()
        invariant
            k <= readers@.len() == dts.len(),
            pages_ok(readers@, dts, num_rows),
            pages == optional_pages(readers@),
            page_columns_from(dts, pages, num_rows, 0, Seq::empty()) == page_columns_from(
                dts,
                pages,
                num_rows,
                k as int,
                optional_columns(out@),
            ),
        decreases readers@.len() - k,
    {
        let ghost before = optional_columns(out@);
        assert(pages[k as int] == optional_page(readers@[k as int]));
        match &readers[k] {
            None => {
                out.push(None);
                assert(optional_columns(out@) =~= before.push(None));
            },
            Some(reader) => {
                assert(page_ok(*reader, dts[k as int], num_rows)) by {
                    assert(readers@[k as int] is Some);
                }
                match reader.read_all() {
                    Err(e) => {
                        return Err(e);
                    },
                    Ok(column) => {
                        out.push(Some(column));
                        assert(optional_columns(out@) =~= before.push(
                            Some(values::cells(column@)),
                        ));
                    },
                }
            },
        }
        k = k + 1;
    }
    Ok(out)
}

impl RowGroupReader {
    /// Reads the projected columns of a bucket.
    fn read_state(&self, b: usize) -> (r: Result<Vec<Option<Vec<Cell>>>, Error>)
        requires
            self.well_formed(),
            b < self.schema.num_buckets,
        ensures
            match bucket_found(
                self.schema@,
                self.projected@,
                self.opened(),
                self.num_rows as nat,
                b as int,
            ) {
                Ok(cs) => r is Ok && optional_columns(r->Ok_0@) == cs && cs.len()
                    == image::bucket_members(self.schema@, b as int).len(),
                Err(e) => r is Err && r->Err_0 == e,
            },
    {
        let ghost s = self.schema@;
        let ghost dts = image::bucket_types(s, b as int);
        let ghost want = wanted(s, self.projected@, b as int);
        let indices: &Vec<usize> = &self.schema.bucket_to_global[b];
        assert(indices@ == image::bucket_members(s, b as int));
        assert(self.schema.columns.len() == s.columns.len());
        proof {
            schema::lemma_members(s.columns, b as nat, s.columns.len());
            lemma_read_bucket_len(dts, want, self.opened()[b as int], self.num_rows as nat);
            assert(state_ok(self.bucket_states@[b as int], dts, self.num_rows as nat));
        }
        match &self.bucket_states[b] {
            None => {
                let mut out: Vec<Option<Vec<Cell>>> = Vec::new();
                let mut k: usize = 0;
                while k < indices.len()
                    invariant
                        k <= indices@.len(),
                        out@.len() == k,
                        forall|j: int| 0 <= j < k ==> #[trigger] out@[j] is None,
                    decreases indices@.len() - k,
                {
                    out.push(None);
                    k = k + 1;
                }
                assert(optional_columns(out@) =~= Seq::new(
                    dts.len(),
                    |k: int| None::<Seq<CellView>>,
                ));
                Ok(out)
            },
            Some(BucketState::Monolithic { reader }) => {
                match reader.read_all_columns() {
                    Err(e) => Err(e),
                    Ok(columns) => {
                        proof {
                            decoding::lemma_bucket_columns_len(
                                dts,
                                reader.info(),
                                reader.bytes(),
                                self.num_rows as nat,
                            );
                            assert(bucket_reader::column_views(columns@).len() == columns@.len());
                        }
                        let r: Vec<Option<Vec<Cell>>> = keep_wanted(
                            columns,
                            indices,
                            &self.projected,
                        );
                        let ghost goal = bucket_found(
                            s,
                            self.projected@,
                            self.opened(),
                            self.num_rows as nat,
                            b as int,
                        )->Ok_0;
                        assert(optional_columns(r@) =~= goal);
                        Ok(r)
                    },
                }
            },
            Some(BucketState::Paged { column_readers }) => read_pages(
                column_readers,
                Ghost(dts),
                Ghost(self.num_rows as nat),
            ),
        }
    }
}


/// Puts the columns of a bucket in their places.
fn scatter(arrays: &mut Vec<Option<Vec<Cell>>>, columns: Vec<Option<Vec<Cell>>>, indices: &Vec<
    usize,
>)
    requires
        columns@.len() == indices@.len(),
        is_selection(indices@, old(arrays)@.len()),
    ensures
        final(arrays)@.len() == old(arrays)@.len(),
        forall|k: int|
            0 <= k < indices@.len() ==> final(arrays)@[(#[trigger] indices@[k]) as int]
                == columns@[k],
        forall|c: int|
            0 <= c < old(arrays)@.len() && !indices@.contains(c as usize) ==> #[trigger] final(arrays)@[c] == old(arrays)@[c],
{
    let ghost all = columns@;
    let ghost start = arrays@;
    let mut columns: Vec<Option<Vec<Cell>>> = columns;
    let mut k: usize = indices.len();
    while k > 0
        invariant
            k <= indices@.len() == all.len(),
            columns@ == all.take(k as int),
            is_selection(indices@, start.len()),
            arrays@.len() == start.len(),
            forall|j: int|
                k <= j < indices@.len() ==> arrays@[(#[trigger] indices@[j]) as int] == all[j],
            forall|c: int|
                0 <= c < start.len() && !indices@.contains(c as usize) ==> #[trigger] arrays@[c]
                    == start[c],
        decreases k,
    {
        let column: Option<Option<Vec<Cell>>> = columns.pop();
        k = k - 1;
        assert(column == Some(all[k as int]));
        assert(columns@ =~= all.take(k as int));
        if let Some(c) = column {
            let ghost before = arrays@;
            let place: usize = indices[k];
            arrays.set(place, c);
            assert(indices@.contains(place));
        }
    }
}

impl RowGroupReader {
    /// Reads all buckets. Returns the cells of each column that is projected and
    /// stored.
    #[verifier::loop_isolation(false)]
    fn read_buckets(&self) -> (r: Result<Vec<Option<Vec<Cell>>>, Error>)
        requires
            self.well_formed(),
        ensures
            match read_error(
                self.schema@,
                self.projected@,
                self.opened(),
                self.num_rows as nat,
            ) {
                Some(e) => r is Err && r->Err_0 == e,
                None => r is Ok && optional_columns(r->Ok_0@) == columns_found(
                    self.schema@,
                    self.projected@,
                    self.opened(),
                    self.num_rows as nat,
                ) && r->Ok_0@.len() == self.schema.columns@.len() && full(optional_columns(r->Ok_0@), self.num_rows as nat),
            },
    {
        let ghost s = self.schema@;
        let ghost projected = self.projected@;
        let ghost opened = self.opened();
        let ghost rows = self.num_rows as nat;
        let ghost errors = Seq::new(
            s.num_buckets,
            |b: int|
                match bucket_found(s, projected, opened, rows, b) {
                    Err(e) => Some(e),
                    Ok(_) => None,
                },
        );
        let n: usize = self.schema.columns.len();
        let mut arrays: Vec<Option<Vec<Cell>>> = Vec::new();
        let mut i: usize = 0;
        while i < n
            invariant
                i <= n,
                arrays@.len() == i,
                forall|c: int| 0 <= c < i ==> #[trigger] arrays@[c] is None,
            decreases n - i,
        {
            arrays.push(None);
            i = i + 1;
        }
        let mut b: usize = 0;
        while b < self.schema.num_buckets
            invariant
                b <= self.schema.num_buckets,
                arrays@.len() == n,
                full(optional_columns(arrays@), rows),
                forall|c: int|
                    0 <= c < n && s.columns[c].bucket_id < b ==> optional_cells(
                        #[trigger] arrays@[c],
                    ) == column_found(s, projected, opened, rows, c),
                forall|c: int| 0 <= c < b ==> #[trigger] errors[c] is None,
            decreases self.schema.num_buckets - b,
        {
            let indices: &Vec<usize> = &self.schema.bucket_to_global[b];
            let ghost members = image::bucket_members(s, b as int);
            assert(indices@ == members);
            assert(n == s.columns.len());
            proof {
                schema::lemma_members(s.columns, b as nat, s.columns.len());
                lemma_read_bucket_len(
                    image::bucket_types(s, b as int),
                    wanted(s, projected, b as int),
                    opened[b as int],
                    rows,
                );
            }
            let columns: Vec<Option<Vec<Cell>>> = match self.read_state(b) {
                Err(e) => {
                    proof {
                        reveal(read_error);
                        lemma_error_at(errors, b as int);
                    }
                    return Err(e);
                },
                Ok(v) => v,
            };
            let ghost cs = optional_columns(columns@);
            let ghost before = arrays@;
            assert(columns@.len() == cs.len());
            scatter(&mut arrays, columns, indices);
            proof {
                lemma_scattered(s, projected, opened, rows, before, arrays@, cs, b as int);
            }
            b = b + 1;
        }
        proof {
            lemma_no_error(errors);
            reveal(columns_found);
            reveal(read_error);
            let goal = columns_found(s, projected, opened, rows);
            assert forall|c: int| 0 <= c < n implies #[trigger] optional_columns(arrays@)[c]
                == goal[c] by {
                assert(self.schema.columns@[c].bucket_id < self.schema.num_buckets);
                assert(s.columns[c].bucket_id < self.schema.num_buckets);
                assert(optional_cells(arrays@[c]) == goal[c]);
            }
            assert(optional_columns(arrays@) =~= goal);
        }
        Ok(arrays)
    }
}

proof fn lemma_scattered(
    s: SchemaView,
    projected: Seq<bool>,
    opened: Seq<BucketView>,
    rows: nat,
    before: Seq<Option<Vec<Cell>>>,
    after: Seq<Option<Vec<Cell>>>,
    cs: Seq<Option<Seq<CellView>>>,
    b: int,
)
    requires
        s.columns.len() <= usize::MAX,
        0 <= b,
        before.len() == s.columns.len(),
        after.len() == s.columns.len(),
        bucket_found(s, projected, opened, rows, b) == Ok::<Seq<Option<Seq<CellView>>>, Error>(cs),
        cs.len() == image::bucket_members(s, b).len(),
        full(cs, rows),
        full(optional_columns(before), rows),
        forall|c: int|
            0 <= c < before.len() && s.columns[c].bucket_id < b ==> optional_cells(
                #[trigger] before[c],
            ) == column_found(s, projected, opened, rows, c),
        forall|k: int|
            0 <= k < cs.len() ==> optional_cells(
                after[(#[trigger] image::bucket_members(s, b)[k]) as int],
            ) == cs[k],
        forall|c: int|
            0 <= c < before.len() && !image::bucket_members(s, b).contains(c as usize)
                ==> #[trigger] after[c] == before[c],
    ensures
        full(optional_columns(after), rows),
        forall|c: int|
            0 <= c < after.len() && s.columns[c].bucket_id < b + 1 ==> optional_cells(
                #[trigger] after[c],
            ) == column_found(s, projected, opened, rows, c),
{
    let members = image::bucket_members(s, b);
    schema::lemma_members(s.columns, b as nat, s.columns.len());
    assert forall|c: int| 0 <= c < after.len() implies (s.columns[c].bucket_id < b + 1
        ==> optional_cells(#[trigger] after[c]) == column_found(s, projected, opened, rows, c)) && (
    after[c] is Some ==> optional_cells(after[c])->0.len() == rows) by {
        if s.columns[c].bucket_id == b {
            assert(members.contains(c as usize));
            let k = members.index_of(c as usize);
            assert(members[k] == c as usize);
            assert(optional_cells(after[members[k] as int]) == cs[k]);
        } else {
            if members.contains(c as usize) {
                let k = choose|k: int| 0 <= k < members.len() && members[k] == c as usize;
                assert(s.columns[members[k] as int].bucket_id == b);
            }
            assert(after[c] == before[c]);
            assert(optional_columns(before)[c] == optional_cells(before[c]));
        }
    }
    assert forall|k: int|
        0 <= k < optional_columns(after).len() && #[trigger] optional_columns(after)[k]
            is Some implies optional_columns(after)[k]->0.len() == rows by {
        assert(after[k] is Some);
    }
}


/// Takes the columns that were found, in the order that is asked for.
fn collect(schema: &MosaicSchema, order: &Vec<usize>, arrays: Vec<Option<Vec<Cell>>>) -> (r: (
    Vec<Field>,
    Vec<Vec<Cell>>,
))
    requires
        arrays@.len() == schema.columns@.len(),
        is_selection(order@, schema.columns@.len()),
    ensures
        ({
            let found = optional_columns(arrays@);
            let list = kept(order@, found, order@.len());
            &&& schema::field_views(r.0@) == Seq::new(
                list.len(),
                |i: int| schema@.columns[list[i] as int].field,
            )
            &&& bucket_reader::column_views(r.1@) == Seq::new(
                list.len(),
                |i: int| found[list[i] as int]->0,
            )
            &&& forall|i: int|
                0 <= i < list.len() ==> found[(#[trigger] list[i]) as int] is Some && list[i]
                    < found.len()
        }),
{
    let ghost all = arrays@;
    let ghost found = optional_columns(all);
    let ghost s = schema@;
    let mut arrays: Vec<Option<Vec<Cell>>> = arrays;
    let mut fields: Vec<Field> = Vec::new();
    let mut columns: Vec<Vec<Cell>> = Vec::new();
    let mut i: usize = 0;
    while i < order.len()
        invariant
            i <= order@.len(),
            is_selection(order@, schema.columns@.len()),
            s == schema@,
            found == optional_columns(all),
            all.len() == schema.columns@.len(),
            arrays@.len() == all.len(),
            forall|j: int|
                i <= j < order@.len() ==> arrays@[(#[trigger] order@[j]) as int]
                    == all[order@[j] as int],
            fields@.len() == kept(order@, found, i as nat).len(),
            columns@.len() == kept(order@, found, i as nat).len(),
            forall|j: int|
                0 <= j < fields@.len() ==> {
                    let c = (#[trigger] kept(order@, found, i as nat)[j]) as int;
                    &&& 0 <= c < found.len()
                    &&& found[c] is Some
                    &&& fields@[j]@ == s.columns[c].field
                    &&& values::cells(columns@[j]@) == found[c]->0
                },
        decreases order@.len() - i,
    {
        let c: usize = order[i];
        let ghost before = arrays@;
        let ghost list = kept(order@, found, i as nat);
        let ghost had = (fields@, columns@);
        assert(arrays@[c as int] == all[c as int]);
        let mut column: Option<Vec<Cell>> = None;
        std::mem::swap(&mut column, &mut arrays[c]);
        assert(found[c as int] == optional_cells(all[c as int]));
        if let Some(cells) = column {
            fields.push(schema.columns[c].to_field());
            columns.push(cells);
        }
        proof {
            let now = kept(order@, found, (i + 1) as nat);
            assert forall|j: int| 0 <= j < fields@.len() implies {
                let c = (#[trigger] now[j]) as int;
                &&& 0 <= c < found.len()
                &&& found[c] is Some
                &&& fields@[j]@ == s.columns[c].field
                &&& values::cells(columns@[j]@) == found[c]->0
            } by {
                if j < list.len() {
                    assert(now[j] == list[j]);
                    assert(fields@[j] == had.0[j] && columns@[j] == had.1[j]);
                }
            }
        }
        i = i + 1;
    }
    proof {
        let list = kept(order@, found, order@.len());
        assert(schema::field_views(fields@) =~= Seq::new(
            list.len(),
            |i: int| s.columns[list[i] as int].field,
        ));
        assert(bucket_reader::column_views(columns@) =~= Seq::new(
            list.len(),
            |i: int| found[list[i] as int]->0,
        ));
    }
    (fields, columns)
}

impl RowGroupReader {
    /// What reading the columns gives.
    pub open spec fn contents(&self) -> Result<BatchView, Error> {
        read_group(
            self.schema(),
            self.projected(),
            self.order(),
            self.opened(),
            self.row_count(),
        )
    }

    /// Reads the projected columns. Where none is projected, the rows are still
    /// counted.
    pub fn read_columns(&mut self) -> (r: Result<RecordBatch, Error>)
        requires
            old(self).well_formed(),
        ensures
            *final(self) == *old(self),
            match old(self).contents() {
                Ok(b) => r is Ok && batch_view(r->Ok_0) == b,
                Err(e) => r is Err && r->Err_0 == e,
            },
    {
        let arrays: Vec<Option<Vec<Cell>>> = match self.read_buckets() {
            Err(e) => {
                return Err(e);
            },
            Ok(v) => v,
        };
        assemble(&self.schema, &self.order, arrays, self.num_rows)
    }
}

/// Makes a batch of the columns that were found.
fn assemble(
    schema: &MosaicSchema,
    order: &Vec<usize>,
    arrays: Vec<Option<Vec<Cell>>>,
    num_rows: usize,
) -> (r: Result<RecordBatch, Error>)
    requires
        arrays@.len() == schema.columns@.len(),
        is_selection(order@, schema.columns@.len()),
        full(optional_columns(arrays@), num_rows as nat),
    ensures
        match assembled(schema@, order@, optional_columns(arrays@), num_rows as nat) {
            Ok(b) => r is Ok && batch_view(r->Ok_0) == b,
            Err(e) => r is Err && r->Err_0 == e,
        },
{
    let ghost found = optional_columns(arrays@);
    let (fields, columns): (Vec<Field>, Vec<Vec<Cell>>) = collect(schema, order, arrays);
    proof {
        reveal(assembled);
        let list = kept(order@, found, order@.len());
        let views = bucket_reader::column_views(columns@);
        assert(fields@.len() == schema::field_views(fields@).len());
        assert(columns@.len() == views.len());
        assert forall|i: int| 0 <= i < views.len() implies (#[trigger] views[i]).len()
            == num_rows by {
            assert(found[list[i] as int] is Some);
        }
        let fs = schema::field_views(fields@);
        assert(batch::nullabilities(fields@) =~= Seq::new(fs.len(), |i: int| fs[i].nullable));
    }
    RecordBatch::try_new(fields, columns, num_rows)
}

} // verus!
