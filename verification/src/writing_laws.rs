//! How a writer stores rows: with the options that it was given, each column in the way that
//! fits it, and each row group counted in full.

use crate::batch;
use crate::bits;
use crate::blocks;
use crate::encoding;
use crate::encoding::Limits;
use crate::error::{Error, ErrorKind};
use crate::image;
use crate::image::Settings;
use crate::layout;
use crate::layout::GroupView;
use crate::schema;
use crate::schema::SchemaView;
use crate::types;
use crate::types::{DataType, Field};
use crate::values;
use crate::values::CellView;
use crate::varint;
use crate::writer;
use crate::writer::{OutputFile, WriterOptions, WriterState};
use vstd::prelude::*;

verus! {

/// A new writer does what its options say and has nothing yet.
pub proof fn lemma_options_kept(s: SchemaView, options: WriterOptions)
    ensures
        ({
            let st = writer::initial(s, options);
            &&& st.schema == s
            &&& st.settings.compression == options.compression
            &&& st.settings.level == options.zstd_level
            &&& st.settings.threshold == options.page_size_threshold
            &&& st.settings.limits.total_bytes == options.max_dict_total_bytes
            &&& options.max_dict_entries <= u32::MAX ==> st.settings.limits.entries
                == options.max_dict_entries
            &&& options.max_dict_entries > u32::MAX ==> st.settings.limits.entries == u32::MAX
            &&& st.max_size == options.row_group_max_size
            &&& st.data.num_rows == 0
            &&& st.buffered == 0
            &&& st.totals == (0u64, 0u64)
            &&& st.groups.len() == 0
            &&& st.history.len() == 0
            &&& !st.closed
        }),
{
}

/// Columns make a batch exactly where each has a field, no null unless it is nullable, and as
/// many cells as there are rows; the first of these that fails is reported.
pub proof fn lemma_batch_made(fields: Seq<Field>, cols: Seq<Seq<CellView>>, num_rows: nat)
    ensures
        ({
            let e = batch::new_error(fields, cols, num_rows);
            let clean = forall|i: int, j: int|
                0 <= i < cols.len() && 0 <= j < cols[i].len() && !fields[i].nullable
                    ==> #[trigger] cols[i][j] != CellView::Null;
            let even = forall|i: int| 0 <= i < cols.len() ==> (#[trigger] cols[i]).len() == num_rows;
            &&& fields.len() != cols.len() ==> e == Some(Error::BatchColumns)
            &&& fields.len() == cols.len() && !clean ==> e == Some(Error::BatchNonNullable)
            &&& fields.len() == cols.len() && clean && !even ==> e == Some(Error::BatchLengths)
            &&& fields.len() == cols.len() && clean && even ==> e is None
        }),
{
    let nullable = batch::nullabilities(fields);
    let clean = forall|i: int, j: int|
        0 <= i < cols.len() && 0 <= j < cols[i].len() && !fields[i].nullable
            ==> #[trigger] cols[i][j] != CellView::Null;
    if fields.len() == cols.len() {
        if clean && batch::misplaced_null(nullable, cols) {
            let i = choose|i: int|
                0 <= i < nullable.len() && 0 <= i < cols.len() && !(#[trigger] nullable[i])
                    && batch::has_null(cols[i]);
            let j = choose|j: int| 0 <= j < cols[i].len() && #[trigger] cols[i][j] == CellView::Null;
            assert(cols[i][j] != CellView::Null);
        }
        if !clean {
            let (i, j) = choose|i: int, j: int|
                0 <= i < cols.len() && 0 <= j < cols[i].len() && !fields[i].nullable
                    && #[trigger] cols[i][j] == CellView::Null;
            assert(batch::has_null(cols[i]));
            assert(!nullable[i]);
        }
    }
}

/// The stored values of a column are those of its cells that are not null, in order.
pub proof fn lemma_stored_values(dt: DataType, rows: Seq<CellView>)
    ensures
        encoding::vals(dt, rows) == rows.filter(|c: CellView| c != CellView::Null).map_values(
            |c: CellView| values::stored(dt, c),
        ),
    decreases rows.len(),
{
    reveal(Seq::filter);
    let f = |c: CellView| c != CellView::Null;
    let g = |c: CellView| values::stored(dt, c);
    if rows.len() == 0 {
        assert(encoding::vals(dt, rows) =~= rows.filter(f).map_values(g));
    } else {
        lemma_stored_values(dt, rows.drop_last());
        if rows.last() != CellView::Null {
            assert(rows.filter(f).map_values(g) =~= rows.drop_last().filter(f).map_values(g).push(
                values::stored(dt, rows.last()),
            ));
        }
    }
}

/// The distinct values are each there once, and there are as many as differ.
pub proof fn lemma_distinct_values(vs: Seq<Seq<u8>>)
    ensures
        encoding::distinct(vs).no_duplicates(),
        encoding::distinct(vs).to_set() == vs.to_set(),
        encoding::distinct(vs).len() == vs.to_set().len(),
{
    encoding::lemma_distinct(vs);
    let d = encoding::distinct(vs);
    assert(d.to_set() =~= vs.to_set()) by {
        assert forall|v: Seq<u8>| d.to_set().contains(v) <==> vs.to_set().contains(v) by {
            if vs.contains(v) {
                let i = choose|i: int| 0 <= i < vs.len() && vs[i] == v;
                assert(d.contains(vs[i]));
            }
            if d.contains(v) {
                let j = choose|j: int| 0 <= j < d.len() && d[j] == v;
                assert(vs.contains(d[j]));
            }
        }
    }
    d.unique_seq_to_set();
}

/// A column is stored as nothing where all its cells are null, as one value where all others
/// are the same, as a table and indices where that is shorter and the table is within its
/// limits, and else as its values.
pub proof fn lemma_encoding_chosen(dt: DataType, rows: Seq<CellView>, limits: Limits)
    ensures
        ({
            let k = encoding::kind(dt, rows, limits);
            let vs = encoding::vals(dt, rows);
            let n = vs.to_set().len();
            let plain = encoding::flat(vs).len();
            let table = encoding::flat(encoding::distinct(vs)).len();
            let indexed = varint::leb(n).len() + table + (vs.len() * bits::width_for(n) + 7) / 8;
            let same = forall|i: int| 0 <= i < vs.len() ==> #[trigger] vs[i] == vs[0];
            &&& k <= 3
            &&& k == 0 <==> forall|i: int|
                0 <= i < rows.len() ==> #[trigger] rows[i] == CellView::Null
            &&& k == 1 <==> vs.len() > 0 && same
            &&& k == 2 <==> vs.len() > 0 && !same && n <= limits.entries && (0 < types::width(dt)
                <= 8 || table <= limits.total_bytes) && indexed < plain
        }),
{
    let vs = encoding::vals(dt, rows);
    lemma_distinct_values(vs);
    encoding::lemma_distinct(vs);
    lemma_no_values(dt, rows);
    let d = encoding::distinct(vs);
    if vs.len() > 0 && !encoding::all_same(vs) {
        let i = choose|i: int| 0 <= i < vs.len() && #[trigger] vs[i] != vs[0];
        assert(d.contains(vs[i]) && d.contains(vs[0]));
        let a = choose|a: int| 0 <= a < d.len() && d[a] == vs[i];
        let b = choose|b: int| 0 <= b < d.len() && d[b] == vs[0];
        assert(a != b);
        assert(d.len() >= 2);
    }
}

proof fn lemma_no_values(dt: DataType, rows: Seq<CellView>)
    ensures
        encoding::vals(dt, rows).len() == 0 <==> forall|i: int|
            0 <= i < rows.len() ==> #[trigger] rows[i] == CellView::Null,
    decreases rows.len(),
{
    if rows.len() > 0 {
        lemma_no_values(dt, rows.drop_last());
        if rows.last() == CellView::Null {
            if encoding::vals(dt, rows).len() == 0 {
                assert forall|i: int| 0 <= i < rows.len() implies #[trigger] rows[i]
                    == CellView::Null by {
                    if i < rows.len() - 1 {
                        assert(rows.drop_last()[i] == CellView::Null);
                    }
                }
            }
            if forall|i: int| 0 <= i < rows.len() ==> #[trigger] rows[i] == CellView::Null {
                assert forall|i: int| 0 <= i < rows.drop_last().len() implies #[trigger] rows.drop_last()[i]
                    == CellView::Null by {
                    assert(rows[i] == CellView::Null);
                }
            }
        } else {
            assert(rows[rows.len() - 1] != CellView::Null);
        }
    }
}

/// A column with both values and nulls says which rows are null, one bit for each row.
pub proof fn lemma_null_bits(dt: DataType, rows: Seq<CellView>)
    ensures
        encoding::nulls(rows).len() == rows.len(),
        forall|i: int|
            0 <= i < rows.len() ==> (#[trigger] encoding::nulls(rows)[i] <==> rows[i]
                == CellView::Null),
        encoding::null_part(dt, rows).len() == if (exists|i: int|
            0 <= i < rows.len() && #[trigger] rows[i] == CellView::Null) && (exists|i: int|
            0 <= i < rows.len() && #[trigger] rows[i] != CellView::Null) {
            (rows.len() + 7) / 8
        } else {
            0
        },
{
    lemma_no_values(dt, rows);
    lemma_all_values(dt, rows);
    bits::lemma_packed_bits(encoding::nulls(rows));
}

proof fn lemma_all_values(dt: DataType, rows: Seq<CellView>)
    ensures
        encoding::vals(dt, rows).len() <= rows.len(),
        encoding::vals(dt, rows).len() == rows.len() <==> forall|i: int|
            0 <= i < rows.len() ==> #[trigger] rows[i] != CellView::Null,
    decreases rows.len(),
{
    if rows.len() > 0 {
        lemma_all_values(dt, rows.drop_last());
        if rows.last() == CellView::Null {
            assert(rows[rows.len() - 1] == CellView::Null);
        } else {
            if encoding::vals(dt, rows).len() == rows.len() {
                assert forall|i: int| 0 <= i < rows.len() implies #[trigger] rows[i]
                    != CellView::Null by {
                    if i < rows.len() - 1 {
                        assert(rows.drop_last()[i] != CellView::Null);
                    }
                }
            }
            if forall|i: int| 0 <= i < rows.len() ==> #[trigger] rows[i] != CellView::Null {
                assert forall|i: int| 0 <= i < rows.drop_last().len() implies #[trigger] rows.drop_last()[i]
                    != CellView::Null by {
                    assert(rows[i] != CellView::Null);
                }
            }
        }
    }
}

/// A bucket is stored column by column where it is compressed, at least as large as the
/// threshold, and its pages are so on average. A column has a page unless it is all null or
/// one value without nulls.
pub proof fn lemma_when_paged(set: Settings, dts: Seq<DataType>, rows: Seq<Seq<CellView>>)
    ensures
        ({
            let ps = image::pages(dts, rows, set.limits);
            let there = ps.filter(|p: Option<Seq<u8>>| p is Some);
            image::is_paged(set, dts, rows) <==> {
                &&& set.compression == 1
                &&& encoding::bucket_bytes(dts, rows, set.limits).len() >= set.threshold
                &&& there.len() > 0
                &&& image::page_total(ps) / there.len() >= set.threshold
            }
        }),
        image::pages(dts, rows, set.limits).len() == dts.len(),
        forall|i: int|
            0 <= i < dts.len() ==> (#[trigger] image::pages(dts, rows, set.limits)[i] is None
                <==> encoding::kind(dts[i], rows[i], set.limits) == 0 || (encoding::kind(
                dts[i],
                rows[i],
                set.limits,
            ) == 1 && forall|j: int|
                0 <= j < rows[i].len() ==> #[trigger] rows[i][j] != CellView::Null)),
{
    lemma_page_count(image::pages(dts, rows, set.limits));
    assert forall|i: int| 0 <= i < dts.len() implies (#[trigger] image::pages(
        dts,
        rows,
        set.limits,
    )[i] is None <==> encoding::kind(dts[i], rows[i], set.limits) == 0 || (encoding::kind(
        dts[i],
        rows[i],
        set.limits,
    ) == 1 && forall|j: int| 0 <= j < rows[i].len() ==> #[trigger] rows[i][j] != CellView::Null)) by {
        lemma_all_values(dts[i], rows[i]);
    }
}

proof fn lemma_page_count(ps: Seq<Option<Seq<u8>>>)
    ensures
        image::page_count(ps) == ps.filter(|p: Option<Seq<u8>>| p is Some).len(),
    decreases ps.len(),
{
    reveal(Seq::filter);
    if ps.len() > 0 {
        lemma_page_count(ps.drop_last());
    }
}

/// The size of pages is that of each of them added up.
pub proof fn lemma_page_sizes(ps: Seq<Option<Seq<u8>>>, p: Option<Seq<u8>>)
    ensures
        image::page_total(Seq::<Option<Seq<u8>>>::empty()) == 0,
        image::page_total(ps.push(p)) == image::page_total(ps) + match p {
            Some(b) => b.len(),
            None => 0,
        },
{
    assert(ps.push(p).drop_last() =~= ps);
}

/// The numbers of a row group fit in the index exactly where its rows and the sizes of its
/// buckets have 32 bits.
pub proof fn lemma_fits_index(g: GroupView)
    ensures
        layout::compact(g) <==> {
            &&& g.num_rows <= u32::MAX
            &&& forall|b: int|
                0 <= b < g.layouts.len() ==> match #[trigger] g.layouts[b] {
                    layout::LayoutView::Empty => true,
                    layout::LayoutView::Monolithic { compressed_size, uncompressed_size } => {
                        compressed_size > 0 ==> compressed_size <= u32::MAX && uncompressed_size
                            <= u32::MAX
                    },
                    layout::LayoutView::Paged { total_size } => total_size <= u32::MAX,
                }
        },
{
    if layout::compact(g) {
        assert forall|b: int| 0 <= b < g.layouts.len() implies match #[trigger] g.layouts[b] {
            layout::LayoutView::Empty => true,
            layout::LayoutView::Monolithic { compressed_size, uncompressed_size } => {
                compressed_size > 0 ==> compressed_size <= u32::MAX && uncompressed_size
                    <= u32::MAX
            },
            layout::LayoutView::Paged { total_size } => total_size <= u32::MAX,
        } by {
            assert(layout::short(g.layouts[b]));
        }
    }
}

/// A file can be closed where its compression is known, no bucket that is waiting is longer
/// than 32 bits can say, and neither are its schema and its index.
pub proof fn lemma_can_close(st: WriterState, file: Seq<u8>)
    ensures
        writer::is_within_limits(st, file) <==> {
            let groups = writer::settled(st, file).0.groups;
            &&& st.settings.compression == 0 || st.settings.compression == 1
            &&& st.data.num_rows > 0 ==> forall|b: int|
                0 <= b < st.schema.num_buckets ==> !writer::oversized(
                    st.settings,
                    #[trigger] image::bucket_types(st.schema, b),
                    st.data.buckets[b],
                )
            &&& schema::schema_bytes(st.schema).len() <= 0xFFFF_FFFF
            &&& groups.len() <= 0xFFFF_FFFF
            &&& forall|i: int| 0 <= i < groups.len() ==> layout::compact(#[trigger] groups[i])
        },
        writer::settled(st, file).0.groups.len() == st.groups.len() + if st.data.num_rows > 0 {
            1nat
        } else {
            0nat
        },
{
}

/// A bucket is too long where its bytes are more than 32 bits can count or, stored column by
/// column, those of one of its columns.
pub proof fn lemma_too_long(set: Settings, dts: Seq<DataType>, rows: Seq<Seq<CellView>>)
    ensures
        writer::oversized(set, dts, rows) <==> image::bucket_image(set, dts, rows).len()
            > 0xFFFF_FFFF || (rows.len() > 0 && rows[0].len() > 0 && image::is_paged(set, dts, rows)
            && exists|i: int|
            0 <= i < dts.len() && (image::page_content(#[trigger] dts[i], rows[i], set.limits).len()
                > 0xFFFF_FFFF || image::slot(set, dts[i], rows[i]).len() > 0xFFFF_FFFF)),
{
}

/// Writing a row group takes all rows that are waiting, and counts its bytes.
pub proof fn lemma_group_written(st: WriterState, base: int)
    ensures
        ({
            let now = writer::flushed(st, base);
            &&& now.schema == st.schema
            &&& now.settings == st.settings
            &&& now.max_size == st.max_size
            &&& now.closed == st.closed
            &&& now.data.num_rows == 0
            &&& now.buffered == 0
            &&& now.groups.len() == st.groups.len() + 1
            &&& forall|i: int| 0 <= i < st.groups.len() ==> now.groups[i] == st.groups[i]
            &&& now.groups.last().num_rows == st.data.num_rows
            &&& now.groups.last().stats == st.data.stats
            &&& now.groups.last().layouts.len() == st.schema.num_buckets
            &&& now.history == st.history.push(st.data)
            &&& st.totals.1 + writer::pending(st).len() <= u64::MAX ==> now.totals.1
                == st.totals.1 + writer::pending(st).len()
            &&& st.totals.1 + writer::pending(st).len() > u64::MAX ==> now.totals.1 == u64::MAX
            &&& st.totals.0 + image::raw_total(
                st.settings,
                st.schema,
                st.data,
                st.schema.num_buckets,
            ) <= u64::MAX ==> now.totals.0 == st.totals.0 + image::raw_total(
                st.settings,
                st.schema,
                st.data,
                st.schema.num_buckets,
            )
        }),
{
}

/// What a row group stands for is what each bucket stands for, added up.
pub proof fn lemma_raw_total(set: Settings, s: SchemaView, d: image::GroupData, n: nat)
    ensures
        image::raw_total(set, s, d, 0) == 0,
        ({
            let dts = image::bucket_types(s, n as int);
            let rows = d.buckets[n as int];
            image::raw_total(set, s, d, n + 1) == image::raw_total(set, s, d, n) + if rows.len()
                == 0 || rows[0].len() == 0 {
                0
            } else if image::is_paged(set, dts, rows) {
                image::page_total(image::pages(dts, rows, set.limits))
            } else {
                encoding::bucket_bytes(dts, rows, set.limits).len()
            }
        }),
{
}

/// Taking in rows leaves what was written before as it is.
pub proof fn lemma_rows_taken(st: WriterState, cols: Seq<Seq<CellView>>, num_rows: nat)
    ensures
        ({
            let now = writer::with_batch(st, cols, num_rows);
            &&& now.schema == st.schema
            &&& now.settings == st.settings
            &&& now.max_size == st.max_size
            &&& now.closed == st.closed
            &&& now.groups == st.groups
            &&& now.history == st.history
            &&& now.totals == st.totals
            &&& now.data.num_rows == st.data.num_rows + num_rows
            &&& now.data.stats.len() == st.data.stats.len()
        }),
{
}

/// Which kind of error comes from what the caller hands in, from data that ends too early,
/// from data that is not as it should be, and from elsewhere.
pub proof fn lemma_kinds(e: Error)
    ensures
        match e {
            Error::UnsupportedType | Error::DecimalPrecision | Error::UnsupportedTimestampUnit
            | Error::ColumnTypeMismatch | Error::LegacyChildNull | Error::LegacyInvalidNanos
            | Error::TextNotUtf8 | Error::RowGroupRange | Error::ColumnRange
            | Error::UnknownColumn | Error::SizeOverflow | Error::WriterClosed
            | Error::ColumnCount | Error::NonNullable | Error::WriterCompression
            | Error::DuplicateColumn | Error::TimezoneMismatch | Error::RangeOutOfBounds => {
                e.spec_kind() == ErrorKind::InvalidInput
            },
            Error::VarintEof | Error::TypeHeaderEof | Error::TimezoneEof | Error::StatsFixedEof
            | Error::StatsVariableEof => e.spec_kind() == ErrorKind::UnexpectedEof,
            Error::Compress | Error::BatchNonNullable | Error::BatchColumns
            | Error::BatchLengths => e.spec_kind() == ErrorKind::Other,
            Error::Io(fault) => e.spec_kind() == fault.kind,
            _ => e.spec_kind() == ErrorKind::InvalidData,
        },
{
}

/// Compressing fails only where there is too much data, or where the compressor itself says
/// so. What is not compressed does not fail.
pub proof fn lemma_compression_fails(data: Seq<u8>, level: i32, st: WriterState, size: int)
    ensures
        blocks::fails(data, level as int) ==> data.len() > isize::MAX / 2 || exists|
            d: &[u8],
            e: std::io::Error,
        |
            d@ == data && #[trigger] call_ensures(
                zstd::bulk::compress,
                (d, level),
                Err::<Vec<u8>, std::io::Error>(e),
            ),
        st.settings.compression != 1 ==> !writer::group_fails(st) && !writer::is_incompressible(st),
        st.data.num_rows == 0 && writer::is_incompressible(st) ==> blocks::fails(
            schema::schema_bytes(st.schema),
            st.settings.level,
        ),
        blocks::is_sound_block(0, data, size),
{
}

/// A bucket fails to be compressed only where one of its blocks does.
pub proof fn lemma_bucket_fails(set: Settings, dts: Seq<DataType>, rows: Seq<Seq<CellView>>)
    requires
        writer::bucket_fails(set, dts, rows),
    ensures
        set.compression == 1,
        rows.len() > 0 && rows[0].len() > 0,
        image::is_paged(set, dts, rows) ==> exists|i: int|
            0 <= i < dts.len() && blocks::fails(
                image::page_content(#[trigger] dts[i], rows[i], set.limits),
                set.level,
            ),
        !image::is_paged(set, dts, rows) ==> blocks::fails(
            encoding::bucket_bytes(dts, rows, set.limits),
            set.level,
        ),
{
}

/// What writing a row group fails with: what the file failed with, what cannot be compressed,
/// a compression that is not known, or a bucket that is too long.
pub proof fn lemma_group_errors(e: Error, st: WriterState)
    requires
        writer::flush_error(e, st),
    ensures
        e is Io || e == Error::Compress || e == Error::WriterCompression || e
            == Error::SizeOverflow,
        e == Error::WriterCompression ==> st.settings.compression > 1,
        e == Error::Compress ==> st.settings.compression == 1 && exists|b: int|
            0 <= b < st.schema.num_buckets && writer::bucket_fails(
                st.settings,
                #[trigger] image::bucket_types(st.schema, b),
                st.data.buckets[b],
            ),
        e == Error::SizeOverflow ==> exists|b: int|
            0 <= b < st.schema.num_buckets && writer::oversized(
                st.settings,
                #[trigger] image::bucket_types(st.schema, b),
                st.data.buckets[b],
            ),
{
}

/// What writing the end of a file fails with.
pub proof fn lemma_end_errors(e: Error, st: WriterState)
    requires
        writer::tail_error(e, st),
    ensures
        e is Io || e == Error::Compress || e == Error::WriterCompression || e
            == Error::SizeOverflow,
        e == Error::WriterCompression ==> st.settings.compression > 1,
        e == Error::Compress ==> st.settings.compression == 1 && blocks::fails(
            schema::schema_bytes(st.schema),
            st.settings.level,
        ),
        e == Error::SizeOverflow ==> schema::schema_bytes(st.schema).len() > 0xFFFF_FFFF
            || st.groups.len() > 0xFFFF_FFFF || exists|i: int|
            0 <= i < st.groups.len() && !layout::compact(#[trigger] st.groups[i]),
{
}

/// A dependable file stays so, and no failure is said to be its own; one that failed is
/// reported with its own error.
pub proof fn lemma_file_errors<S: OutputFile>(before: S, after: S, r: Result<(), Error>)
    requires
        writer::is_fair(before, after, r),
    ensures
        before.dependable() ==> after.dependable(),
        before.dependable() && r is Err ==> !(r->Err_0 is Io),
        r is Err && r->Err_0 is Io ==> after.failure() == Some(r->Err_0),
{
}

/// Rows of columns cannot be written without knowing how to compress them.
pub proof fn lemma_unknown_compression(st: WriterState)
    ensures
        writer::is_unknown_group(st) <==> st.settings.compression > 1 && st.data.num_rows > 0
            && st.schema.columns.len() > 0,
{
}

} // verus!
