//! What is refused of the bytes of a file, and as what: nothing that is cut off, that points
//! outside of what it belongs to, or that contradicts itself is read.

use crate::batch;
use crate::bits;
use crate::bytes;
use crate::decoding;
use crate::error::Error;
use crate::image;
use crate::layout;
use crate::layout::{Entries, GroupView, LayoutView};
use crate::row_group;
use crate::row_group::{BatchView, FileView, PageView};
use crate::schema;
use crate::schema::{ColumnMetaView, SchemaView};
use crate::stats;
use crate::stats::ColumnStatsView;
use crate::types;
use crate::types::{DataType, TimeUnit};
use crate::values;
use crate::values::{CellView, ValueView};
use crate::varint;
use vstd::prelude::*;
use vstd::utf8;

verus! {

/// The mark of a legacy timestamp counts only for a timestamp in nanoseconds without a time
/// zone; every other type stays as it is.
pub proof fn lemma_mark_counts(dt: DataType, legacy: bool)
    ensures
        legacy && dt == DataType::Timestamp(TimeUnit::Nanosecond, false) ==> schema::marked_type(
            dt,
            legacy,
        ) == DataType::LegacyTimestampNanos,
        !legacy || dt != DataType::Timestamp(TimeUnit::Nanosecond, false) ==> schema::marked_type(
            dt,
            legacy,
        ) == dt,
{
}

/// The precision of a type: the digits of a decimal, and those behind the second of a time.
/// The scale is that of a decimal, in 32 bits.
pub proof fn lemma_precision_and_scale(dt: DataType)
    ensures
        types::precision(dt) == match dt {
            DataType::Decimal128(p, _) => p as int,
            DataType::Timestamp(TimeUnit::Millisecond, _) => 3,
            DataType::Timestamp(TimeUnit::Microsecond, _) => 6,
            DataType::Timestamp(TimeUnit::Nanosecond, _) => 9,
            DataType::LegacyTimestampNanos => 9,
            DataType::Time32(TimeUnit::Millisecond) => 3,
            _ => 0,
        },
        types::scale(dt) == match dt {
            DataType::Decimal128(_, s) => if s < 0 {
                s + 0x1_0000_0000
            } else {
                s as int
            },
            _ => 0,
        },
{
}

/// A value of a fixed width that is cut off is refused with the error for that; a whole one
/// takes its width.
pub proof fn lemma_fixed_value(dt: DataType, s: Seq<u8>, p: int, short: Error)
    requires
        types::width(dt) > 0,
    ensures
        p + types::width(dt) > s.len() ==> values::value_at(dt, s, p, short) == Err::<
            (ValueView, int),
            Error,
        >(short),
        p + types::width(dt) <= s.len() ==> values::value_at(dt, s, p, short) is Ok
            && values::value_at(dt, s, p, short)->Ok_0.1 == types::width(dt),
{
}

/// A value behind its length is refused where it is cut off, and else takes that many bytes.
pub proof fn lemma_variable_value(dt: DataType, s: Seq<u8>, p: int, len: u32, short: Error)
    requires
        types::width(dt) <= 0,
        bytes::has_at(s, p, varint::leb(len as nat)),
    ensures
        ({
            let q = p + varint::leb(len as nat).len();
            &&& q + len > s.len() ==> values::value_at(dt, s, p, short) == Err::<
                (ValueView, int),
                Error,
            >(Error::ValueTruncated)
            &&& q + len <= s.len() ==> {
                &&& values::value_at(dt, s, p, short) is Ok
                &&& values::value_at(dt, s, p, short)->Ok_0.1 == varint::leb(len as nat).len() + len
                &&& dt == DataType::Utf8 ==> values::value_at(dt, s, p, short)->Ok_0.0
                    == ValueView::String(s.subrange(q, q + len))
                &&& dt == DataType::Binary ==> values::value_at(dt, s, p, short)->Ok_0.0
                    == ValueView::Bytes(s.subrange(q, q + len))
                &&& dt is Decimal128 ==> values::value_at(dt, s, p, short)->Ok_0.0
                    == ValueView::DecimalLarge(s.subrange(q, q + len))
            }
        }),
{
    varint::lemma_u32_round_trip(s, p, len);
}

/// Stored text is read only where it is UTF-8, stored decimals only where they have at most
/// sixteen bytes, and timestamps in nanoseconds only where they have 64 bits.
pub proof fn lemma_stored_cells(b: Seq<u8>, precision: u8, scale: i8, millis: i64, nanos: i32)
    ensures
        values::cell_of(DataType::Utf8, ValueView::String(b)) == if utf8::valid_utf8(b) {
            Ok::<CellView, Error>(CellView::Utf8(b))
        } else {
            Err(Error::CorruptText)
        },
        values::cell_of(DataType::Binary, ValueView::Bytes(b)) == Ok::<CellView, Error>(
            CellView::Binary(b),
        ),
        precision > 18 && b.len() > 16 ==> values::cell_of(
            DataType::Decimal128(precision, scale),
            ValueView::DecimalLarge(b),
        ) == Err::<CellView, Error>(Error::DecimalTooWide),
        precision > 18 && 1 <= b.len() <= 16 ==> values::cell_of(
            DataType::Decimal128(precision, scale),
            ValueView::DecimalLarge(b),
        ) == Ok::<CellView, Error>(
            CellView::Decimal128(
                (if 2 * bytes::be_value(b) >= bytes::base(b.len()) {
                    bytes::be_value(b) - bytes::base(b.len())
                } else {
                    bytes::be_value(b) as int
                }) as i128,
            ),
        ),
        forall|zoned: bool|
            match types::joined(millis as int, nanos as int) {
                Ok(ns) => #[trigger] values::cell_of(
                    DataType::Timestamp(TimeUnit::Nanosecond, zoned),
                    ValueView::TimestampNanos { millis, nanos_of_milli: nanos },
                ) == Ok::<CellView, Error>(CellView::TimestampNanos(ns)),
                Err(e) => values::cell_of(
                    DataType::Timestamp(TimeUnit::Nanosecond, zoned),
                    ValueView::TimestampNanos { millis, nanos_of_milli: nanos },
                ) == Err::<CellView, Error>(e),
            },
{
}

/// The statistics of a column that the file does not have, and those that count more nulls
/// than there are rows, are refused; where all rows are null there are no bounds.
pub proof fn lemma_statistics_refused(
    s: Seq<u8>,
    p: int,
    dts: Seq<DataType>,
    num_rows: nat,
    index: u32,
    nulls: u32,
)
    requires
        bytes::has_at(s, p, varint::leb(index as nat) + varint::leb(nulls as nat)),
    ensures
        index >= dts.len() ==> stats::parse_stat(s, p, dts, num_rows) == Err::<
            (ColumnStatsView, int),
            Error,
        >(Error::StatsColumnIndex),
        index < dts.len() && nulls > num_rows ==> stats::parse_stat(s, p, dts, num_rows) == Err::<
            (ColumnStatsView, int),
            Error,
        >(Error::StatsNullCount),
        index < dts.len() && nulls == num_rows ==> stats::parse_stat(s, p, dts, num_rows) == Ok::<
            (ColumnStatsView, int),
            Error,
        >(
            (
                ColumnStatsView {
                    column_index: index as nat,
                    null_count: nulls as nat,
                    min: None,
                    max: None,
                },
                p + (varint::leb(index as nat) + varint::leb(nulls as nat)).len(),
            ),
        ),
        index < dts.len() && nulls < num_rows && stats::parse_stat(s, p, dts, num_rows) is Ok
            ==> stats::parse_stat(s, p, dts, num_rows)->Ok_0.0.min is Some && stats::parse_stat(
            s,
            p,
            dts,
            num_rows,
        )->Ok_0.0.max is Some && stats::parse_stat(s, p, dts, num_rows)->Ok_0.0.column_index
            == index && stats::parse_stat(s, p, dts, num_rows)->Ok_0.0.null_count == nulls,
{
    reveal(stats::parse_stat);
    let a = varint::leb(index as nat);
    bytes::lemma_has_at_split(s, p, a, varint::leb(nulls as nat));
    varint::lemma_u32_round_trip(s, p, index);
    varint::lemma_u32_round_trip(s, p + a.len(), nulls);
}

/// What an entry of the index does: it is refused where it is of a bucket that the file does
/// not have or that was there before, where its sizes contradict each other, and where the
/// bucket does not end before the schema block. Else it is that bucket's.
pub proof fn lemma_entry(
    s: Seq<u8>,
    p: int,
    limit: int,
    acc: Entries,
    b: u32,
    offset: u64,
    size: u32,
    uncompressed: u32,
)
    requires
        bytes::has_at(
            s,
            p,
            varint::leb(b as nat) + bytes::be(offset as nat, 8) + varint::leb(size as nat)
                + varint::leb(uncompressed as nat),
        ),
        acc.offsets.len() == acc.seen.len(),
        acc.layouts.len() == acc.seen.len(),
    ensures
        ({
            let r = layout::parse_entry(s, p, limit, acc);
            &&& b >= acc.seen.len() ==> r == Err::<(Entries, int), Error>(Error::IndexCorrupt)
            &&& b < acc.seen.len() && acc.seen[b as int] ==> r == Err::<(Entries, int), Error>(
                Error::DuplicateBucket,
            )
            &&& b < acc.seen.len() && !acc.seen[b as int] ==> {
                &&& size == 0 && uncompressed > 0 ==> r == Err::<(Entries, int), Error>(
                    Error::BadLayout,
                )
                &&& size > 0 || uncompressed == 0 ==> {
                    &&& offset + size > u64::MAX ==> r == Err::<(Entries, int), Error>(
                        Error::BucketOverflow,
                    )
                    &&& limit < offset + size <= u64::MAX ==> r == Err::<(Entries, int), Error>(
                        Error::BucketPastSchema,
                    )
                    &&& offset + size <= limit && offset + size <= u64::MAX ==> {
                        &&& r is Ok
                        &&& r->Ok_0.0.offsets == acc.offsets.update(b as int, offset)
                        &&& r->Ok_0.0.seen == acc.seen.update(b as int, true)
                        &&& r->Ok_0.0.layouts == acc.layouts.update(
                            b as int,
                            if size == 0 {
                                LayoutView::Empty
                            } else if uncompressed == 0 {
                                LayoutView::Paged { total_size: size as nat }
                            } else {
                                LayoutView::Monolithic {
                                    compressed_size: size as nat,
                                    uncompressed_size: uncompressed as nat,
                                }
                            },
                        )
                    }
                }
            }
        }),
{
    reveal(layout::parse_entry);
    let a = varint::leb(b as nat);
    let o = bytes::be(offset as nat, 8);
    let c = varint::leb(size as nat);
    let d = varint::leb(uncompressed as nat);
    bytes::lemma_bases();
    bytes::lemma_be_round_trip(offset as nat, 8);
    bytes::lemma_has_at_split(s, p, a + o + c, d);
    bytes::lemma_has_at_split(s, p, a + o, c);
    bytes::lemma_has_at_split(s, p, a, o);
    varint::lemma_u32_round_trip(s, p, b);
    varint::lemma_u32_round_trip(s, p + a.len() + 8, size);
    varint::lemma_u32_round_trip(s, p + a.len() + 8 + c.len(), uncompressed);
    assert(s.subrange(p + a.len(), p + a.len() + 8) == o);
}

/// A row group with more stored buckets than the file has is refused.
pub proof fn lemma_group_refused(
    s: Seq<u8>,
    p: int,
    limit: int,
    num_buckets: nat,
    dts: Seq<DataType>,
    num_rows: u32,
    stored: u32,
)
    requires
        bytes::has_at(s, p, varint::leb(num_rows as nat) + varint::leb(stored as nat)),
        stored > num_buckets,
    ensures
        layout::parse_group(s, p, limit, num_buckets, dts) == Err::<(GroupView, int), Error>(
            Error::NonEmptyCount,
        ),
{
    reveal(layout::parse_group);
    let a = varint::leb(num_rows as nat);
    bytes::lemma_has_at_split(s, p, a, varint::leb(stored as nat));
    varint::lemma_u32_round_trip(s, p, num_rows);
    varint::lemma_u32_round_trip(s, p + a.len(), stored);
}

/// An index is read only where it ends with its last row group.
pub proof fn lemma_index_end(
    s: Seq<u8>,
    limit: int,
    num_buckets: nat,
    dts: Seq<DataType>,
    n: nat,
)
    ensures
        ({
            let found = layout::groups_from(s, 0, limit, num_buckets, dts, n, Seq::empty());
            let r = layout::parse_index(s, limit, num_buckets, dts, n);
            &&& found is Err ==> r == Err::<Seq<GroupView>, Error>(found->Err_0)
            &&& found is Ok && found->Ok_0.1 == s.len() ==> r == Ok::<Seq<GroupView>, Error>(
                found->Ok_0.0,
            )
            &&& found is Ok && found->Ok_0.1 != s.len() ==> r == Err::<Seq<GroupView>, Error>(
                Error::TrailingIndex,
            )
        }),
{
    reveal(layout::parse_index);
}

/// A schema is read only where it has buckets, no more of them than columns, and ends with its
/// last column.
pub proof fn lemma_schema_refused(s: Seq<u8>, num_buckets: u32, n: u32)
    requires
        bytes::has_at(s, 0, varint::leb(num_buckets as nat) + varint::leb(n as nat)),
    ensures
        ({
            let r = schema::parse_schema(s);
            let p = (varint::leb(num_buckets as nat) + varint::leb(n as nat)).len() as int;
            let found = schema::columns_from(s, p, num_buckets as nat, n as nat, Seq::empty());
            &&& num_buckets == 0 ==> r == Err::<SchemaView, Error>(Error::ZeroBuckets)
            &&& num_buckets > 1 && num_buckets > n ==> r == Err::<SchemaView, Error>(
                Error::SchemaBucket,
            )
            &&& num_buckets == 1 || 1 <= num_buckets <= n ==> {
                &&& found is Err ==> r == Err::<SchemaView, Error>(found->Err_0)
                &&& found is Ok && found->Ok_0.1 != s.len() ==> r == Err::<SchemaView, Error>(
                    Error::SchemaTrailing,
                )
                &&& found is Ok && found->Ok_0.1 == s.len() ==> r == Ok::<SchemaView, Error>(
                    SchemaView { columns: found->Ok_0.0, num_buckets: num_buckets as nat },
                )
            }
        }),
{
    reveal(schema::parse_schema);
    let a = varint::leb(num_buckets as nat);
    bytes::lemma_has_at_split(s, 0, a, varint::leb(n as nat));
    varint::lemma_u32_round_trip(s, 0, num_buckets);
    varint::lemma_u32_round_trip(s, a.len() as int, n);
}

/// A column is read only where its name is there and is UTF-8, and its bucket is one of the
/// file.
pub proof fn lemma_column_refused(s: Seq<u8>, p: int, num_buckets: nat, len: u32)
    requires
        bytes::has_at(s, p, varint::leb(len as nat)),
    ensures
        ({
            let r = schema::parse_column(s, p, num_buckets);
            let q = p + varint::leb(len as nat).len();
            &&& q + len >= s.len() ==> r == Err::<(ColumnMetaView, int), Error>(
                Error::SchemaTruncated,
            )
            &&& q + len < s.len() && !utf8::valid_utf8(s.subrange(q, q + len)) ==> r == Err::<
                (ColumnMetaView, int),
                Error,
            >(Error::SchemaName)
            &&& r is Ok ==> {
                &&& r->Ok_0.0.bucket_id < num_buckets
                &&& r->Ok_0.0.field.name == utf8::decode_utf8(s.subrange(q, q + len))
                &&& r->Ok_0.0.field.nullable == (s[q + len + 2] != 0)
            }
        }),
{
    reveal(schema::parse_column);
    varint::lemma_u32_round_trip(s, p, len);
}

/// The header of a bucket says of each column how it is stored, in two bits.
pub proof fn lemma_header_read(s: Seq<u8>, n: nat, i: int)
    requires
        0 <= i < n,
    ensures
        decoding::kinds_at(s, n).len() == n,
        decoding::kinds_at(s, n)[i] == (if bits::bit_at(s, 2 * i) {
            1int
        } else {
            0int
        }) + (if bits::bit_at(s, 2 * i + 1) {
            2int
        } else {
            0int
        }),
        decoding::header_size(n) == (2 * n + 7) / 8 + (n + 7) / 8,
{
}

/// A bucket that is shorter than its header is refused.
pub proof fn lemma_short_bucket(dts: Seq<DataType>, s: Seq<u8>, num_rows: nat)
    ensures
        s.len() < (2 * dts.len() + 7) / 8 + (dts.len() + 7) / 8 ==> decoding::parse_bucket(
            dts,
            s,
            num_rows,
        ) == Err::<decoding::BucketInfo, Error>(Error::BucketTruncated),
{
}

/// How far the data of a column reaches: as many values or indices as it has cells that are
/// not null. Data that is cut off is refused.
pub proof fn lemma_column_data(
    dt: DataType,
    s: Seq<u8>,
    count: nat,
    entries: nat,
    p: int,
)
    ensures
        decoding::skip_column(dt, 0, s, count as int, entries, p) == Ok::<int, Error>(p),
        decoding::skip_column(dt, 1, s, count as int, entries, p) == Ok::<int, Error>(p),
        ({
            let size = (count * bits::width_for(entries) + 7) / 8;
            decoding::skip_column(dt, 2, s, count as int, entries, p) == if p + size > s.len() {
                Err::<int, Error>(Error::BucketTruncated)
            } else {
                Ok(p + size)
            }
        }),
        types::width(dt) > 0 ==> decoding::skip_column(dt, 3, s, count as int, entries, p)
            == if p + count * types::width(dt) > s.len() {
            Err::<int, Error>(Error::BucketTruncated)
        } else {
            Ok(p + count * types::width(dt))
        },
{
}

/// How many cells of a column are not null: as many rows as there are without those whose bit
/// is set.
pub proof fn lemma_values_counted(flag: bool, bitmap: Seq<u8>, num_rows: nat)
    ensures
        !flag ==> decoding::non_null(flag, bitmap, num_rows) == num_rows,
        flag ==> decoding::non_null(flag, bitmap, num_rows + 1) == decoding::non_null(
            flag,
            bitmap,
            num_rows,
        ) + (if bits::bit_at(bitmap, num_rows as int) {
            0int
        } else {
            1int
        }),
        decoding::non_null(flag, bitmap, 0) == 0,
{
}

/// The next cell of a column of indices: null where its bit is set, else the entry of the
/// table that the index points to. An index outside of the table is refused.
pub proof fn lemma_next_index(
    dict: Seq<ValueView>,
    flag: bool,
    bitmap: Seq<u8>,
    s: Seq<u8>,
    num_rows: nat,
    i: int,
    p: int,
    acc: Seq<Option<ValueView>>,
)
    requires
        0 <= i < num_rows,
    ensures
        ({
            let r = decoding::dict_values_from(dict, flag, bitmap, s, num_rows, i, p, acc);
            let w = bits::width_for(dict.len());
            let place = bits::bits_value(bits::bits_at(s, p, w));
            &&& flag && bits::bit_at(bitmap, i) ==> r == decoding::dict_values_from(
                dict,
                flag,
                bitmap,
                s,
                num_rows,
                i + 1,
                p,
                acc.push(None),
            )
            &&& !(flag && bits::bit_at(bitmap, i)) ==> {
                &&& p + w > 8 * s.len() ==> r == Err::<Seq<Option<ValueView>>, Error>(
                    Error::BucketTruncated,
                )
                &&& p + w <= 8 * s.len() && place >= dict.len() ==> r == Err::<
                    Seq<Option<ValueView>>,
                    Error,
                >(Error::CorruptDictIndex)
                &&& p + w <= 8 * s.len() && place < dict.len() ==> r
                    == decoding::dict_values_from(
                    dict,
                    flag,
                    bitmap,
                    s,
                    num_rows,
                    i + 1,
                    p + w,
                    acc.push(Some(dict[place as int])),
                )
            }
        }),
{
}

/// What the block of a column says of it: how it is stored, and in the lowest bit of the next
/// byte whether it has nulls. A block of less is refused.
pub proof fn lemma_page_head(dt: DataType, content: Seq<u8>, num_rows: nat)
    ensures
        content.len() < 2 ==> row_group::parse_content(dt, content, num_rows) == Err::<
            PageView,
            Error,
        >(Error::PageContentShort),
        row_group::parse_content(dt, content, num_rows) is Ok ==> {
            let page = row_group::parse_content(dt, content, num_rows)->Ok_0;
            &&& page.kind == content[0]
            &&& page.flag == (content[1] % 2 == 1)
            &&& content[0] != 1 ==> page.bytes == content.skip(2)
        },
{
    crate::format_laws::lemma_format_numbers();
}

/// A page is refused where its null bitmap or its data is cut off.
pub proof fn lemma_page_refused(dt: DataType, flag: bool, s: Seq<u8>, num_rows: nat)
    ensures
        flag && (num_rows + 7) / 8 > s.len() ==> decoding::parse_page(dt, 1, flag, s, 0, num_rows)
            == Err::<decoding::PageInfo, Error>(Error::PageNullBitmap),
        flag && (num_rows + 7) / 8 > s.len() ==> decoding::parse_page(dt, 3, flag, s, 0, num_rows)
            == Err::<decoding::PageInfo, Error>(Error::PageNullBitmap),
        !flag && types::width(dt) > 0 && num_rows * types::width(dt) > s.len()
            ==> decoding::parse_page(dt, 3, flag, s, 0, num_rows) == Err::<
            decoding::PageInfo,
            Error,
        >(Error::PagePlainFixed),
{
}

/// The sizes of the columns of a bucket have to add up to the size of the bucket.
pub proof fn lemma_sizes_add_up(f: FileView, file: Seq<u8>, g: GroupView, b: int, total: nat)
    ensures
        ({
            let n = image::bucket_members(f.schema, b).len();
            let at = g.offsets[b] as int;
            let sizes = row_group::sizes_at(f, file, g, b);
            &&& sizes.len() == n
            &&& forall|i: int|
                0 <= i < n ==> #[trigger] sizes[i] == bytes::le4_value(
                    file.subrange(at, at + 4 * n).subrange(4 * i, 4 * i + 4),
                )
            &&& row_group::is_mismatched(f, file, g, b, total) <==> 4 * n + row_group::slots_size(
                sizes,
                n,
            ) != total
        }),
{
}

/// What is read of a file is refused where a column that is not nullable has a null, and else
/// holds the columns that were found, in the order that was asked for.
pub proof fn lemma_assembled(
    s: SchemaView,
    order: Seq<usize>,
    found: Seq<Option<Seq<CellView>>>,
    num_rows: nat,
)
    requires
        forall|k: int| 0 <= k < order.len() ==> found[(#[trigger] order[k]) as int] is Some,
    ensures
        ({
            let r = row_group::assembled(s, order, found, num_rows);
            let wrong = exists|k: int, i: int|
                0 <= k < order.len() && 0 <= i < found[order[k] as int]->0.len()
                    && #[trigger] found[order[k] as int]->0[i] == CellView::Null
                    && !s.columns[order[k] as int].field.nullable;
            &&& wrong ==> r == Err::<BatchView, Error>(Error::BatchNonNullable)
            &&& !wrong ==> {
                &&& r is Ok
                &&& r->Ok_0.num_rows == num_rows
                &&& r->Ok_0.fields.len() == order.len()
                &&& r->Ok_0.columns.len() == order.len()
                &&& forall|k: int|
                    0 <= k < order.len() ==> #[trigger] r->Ok_0.fields[k]
                        == s.columns[order[k] as int].field
                &&& forall|k: int|
                    0 <= k < order.len() ==> #[trigger] r->Ok_0.columns[k]
                        == found[order[k] as int]->0
            }
        }),
{
    reveal(row_group::assembled);
    crate::file_round_trip::lemma_all_kept(order, found, order.len());
    assert(order.take(order.len() as int) =~= order);
    let fields = Seq::new(order.len(), |i: int| s.columns[order[i] as int].field);
    let columns = Seq::new(order.len(), |i: int| found[order[i] as int]->0);
    let nullable = Seq::new(fields.len(), |i: int| fields[i].nullable);
    let wrong = exists|k: int, i: int|
        0 <= k < order.len() && 0 <= i < found[order[k] as int]->0.len()
            && #[trigger] found[order[k] as int]->0[i] == CellView::Null
            && !s.columns[order[k] as int].field.nullable;
    if batch::misplaced_null(nullable, columns) {
        let k = choose|k: int|
            0 <= k < nullable.len() && 0 <= k < columns.len() && !(#[trigger] nullable[k])
                && batch::has_null(columns[k]);
        let i = choose|i: int|
            0 <= i < columns[k].len() && #[trigger] columns[k][i] == CellView::Null;
        assert(found[order[k] as int]->0[i] == CellView::Null);
    }
    if wrong {
        let (k, i) = choose|k: int, i: int|
            0 <= k < order.len() && 0 <= i < found[order[k] as int]->0.len()
                && #[trigger] found[order[k] as int]->0[i] == CellView::Null
                && !s.columns[order[k] as int].field.nullable;
        assert(columns[k][i] == CellView::Null);
        assert(!nullable[k]);
    }
}

} // verus!
