//! Everything that a writer takes in comes out of its file again, in order.

use crate::batch;
use crate::bucket_writer;
use crate::error::Error;
use crate::file_round_trip;
use crate::image;
use crate::input::InputFile;
use crate::reader;
use crate::reader::{MosaicReader, ReaderAccess};
use crate::round_trip;
use crate::row_group;
use crate::row_group::{BatchView, FileView, RowGroupReader};
use crate::schema;
use crate::schema::SchemaView;
use crate::stats;
use crate::types;
use crate::types::DataType;
use crate::values::CellView;
use crate::writer;
use crate::writer::{WriterOptions, WriterState};
use vstd::prelude::*;

verus! {

/// The cells of a batch, column by column, the types that the columns are declared
/// with, and how many rows they make.
pub struct BatchCells {
    pub types: Seq<DataType>,
    pub columns: Seq<Seq<CellView>>,
    pub num_rows: nat,
}

/// A batch that a writer accepts and whose cells lose nothing when they are stored.
pub open spec fn fits(s: SchemaView, b: BatchCells) -> bool {
    &&& b.columns.len() == s.columns.len()
    &&& forall|c: int| 0 <= c < b.columns.len() ==> (#[trigger] b.columns[c]).len() == b.num_rows
    &&& b.num_rows > 0 ==> is_declared(s, b.types)
    &&& file_round_trip::lossless(s, b.columns)
}

/// Whether columns are declared with types of the cells that the schema has.
pub open spec fn is_declared(s: SchemaView, declared: Seq<DataType>) -> bool {
    &&& declared.len() == s.columns.len()
    &&& forall|c: int|
        0 <= c < declared.len() ==> types::same_cells(
            s.columns[c].field.data_type,
            #[trigger] declared[c],
        )
}

/// Columns without cells.
pub open spec fn no_columns(s: SchemaView) -> Seq<Seq<CellView>> {
    Seq::new(s.columns.len(), |c: int| Seq::<CellView>::empty())
}

/// Columns given in parts, the cells of one part behind those of the one before.
pub open spec fn stacked(s: SchemaView, parts: Seq<Seq<Seq<CellView>>>) -> Seq<Seq<CellView>>
    decreases parts.len(),
{
    if parts.len() == 0 {
        no_columns(s)
    } else {
        image::appended(stacked(s, parts.drop_last()), parts.last())
    }
}

/// The columns of batches.
pub open spec fn columns_of(batches: Seq<BatchCells>) -> Seq<Seq<Seq<CellView>>> {
    Seq::new(batches.len(), |i: int| batches[i].columns)
}

/// A writer and its file, together with the cells that they stand for: those of the
/// row groups in the file, and those that are waiting.
#[verifier::ext_equal]
pub struct Progress {
    pub state: WriterState,
    pub file: Seq<u8>,
    pub parts: Seq<Seq<Seq<CellView>>>,
    pub waiting: Seq<Seq<CellView>>,
}

/// A new writer.
pub open spec fn started(s: SchemaView, options: WriterOptions, file: Seq<u8>) -> Progress {
    Progress {
        state: writer::initial(s, options),
        file,
        parts: Seq::empty(),
        waiting: no_columns(s),
    }
}

/// The writer once its waiting rows are in the file.
pub open spec fn settle(p: Progress) -> Progress {
    if p.state.data.num_rows == 0 {
        p
    } else {
        let (state, file) = writer::settled(p.state, p.file);
        Progress {
            state,
            file,
            parts: p.parts.push(p.waiting),
            waiting: no_columns(p.state.schema),
        }
    }
}

/// The writer once it has taken in a batch: its state and its file are those with
/// which `write_batch` succeeds.
pub open spec fn grown(p: Progress, b: BatchCells) -> Progress {
    let next = Progress {
        state: writer::with_batch(p.state, b.columns, b.num_rows),
        waiting: image::appended(p.waiting, b.columns),
        ..p
    };
    if next.state.buffered < next.state.max_size {
        next
    } else {
        settle(next)
    }
}

/// A new writer that has taken in the first `n` batches.
pub open spec fn after(
    s: SchemaView,
    options: WriterOptions,
    file: Seq<u8>,
    batches: Seq<BatchCells>,
    n: nat,
) -> Progress
    decreases n,
{
    if n == 0 {
        started(s, options, file)
    } else {
        grown(after(s, options, file, batches, (n - 1) as nat), batches[n - 1])
    }
}

/// Whether the row groups of a writer and what is waiting are made of the given cells.
pub open spec fn holds(p: Progress) -> bool {
    let s = p.state.schema;
    &&& p.parts.len() == p.state.history.len()
    &&& forall|j: int|
        0 <= j < p.parts.len() ==> {
            &&& file_round_trip::records(s, #[trigger] p.state.history[j], p.parts[j])
            &&& file_round_trip::lossless(s, p.parts[j])
            &&& file_round_trip::all_watched(s, p.state.history[j], p.parts[j])
            &&& p.state.history[j].num_rows > 0
        }
    &&& file_round_trip::records(s, p.state.data, p.waiting)
    &&& file_round_trip::lossless(s, p.waiting)
    &&& file_round_trip::all_watched(s, p.state.data, p.waiting)
}

/// Statistics that can be read back: of timestamps in nanoseconds, whose least and
/// greatest values are not stored, only where all of them are null.
pub open spec fn keeps_readable_stats(
    s: SchemaView,
    options: WriterOptions,
    batches: Seq<BatchCells>,
) -> bool {
    &&& options.stats_columns@.len() <= u32::MAX
    &&& forall|i: int, j: int|
        0 <= i < options.stats_columns@.len() && options.stats_columns@[i] < s.columns.len() && 0
            <= j < batches.len() && stats::is_nanos(
            s.columns[options.stats_columns@[i] as int].field.data_type,
        ) ==> stats::only_nulls(
            (#[trigger] batches[j]).columns[#[trigger] options.stats_columns@[i] as int],
        )
}

proof fn lemma_stacked_len(s: SchemaView, parts: Seq<Seq<Seq<CellView>>>)
    ensures
        stacked(s, parts).len() == s.columns.len(),
    decreases parts.len(),
{
    if parts.len() > 0 {
        lemma_stacked_len(s, parts.drop_last());
    }
}

proof fn lemma_chosen(s: SchemaView, options: WriterOptions, n: nat)
    requires
        n <= options.stats_columns@.len(),
    ensures
        ({
            let list = writer::chosen(s, options.stats_columns@, n);
            &&& list.len() <= n
            &&& forall|i: int|
                0 <= i < list.len() ==> #[trigger] list[i] < s.columns.len() && stats::supported(
                    s.columns[list[i] as int].field.data_type,
                ) && list[i] <= usize::MAX && options.stats_columns@.contains(list[i] as usize)
        }),
    decreases n,
{
    if n > 0 {
        lemma_chosen(s, options, (n - 1) as nat);
    }
}

proof fn lemma_lossless_appended(
    s: SchemaView,
    a: Seq<Seq<CellView>>,
    b: Seq<Seq<CellView>>,
)
    requires
        a.len() == s.columns.len(),
        b.len() == s.columns.len(),
        file_round_trip::lossless(s, a),
        file_round_trip::lossless(s, b),
    ensures
        file_round_trip::lossless(s, image::appended(a, b)),
{
    let all = image::appended(a, b);
    assert forall|c: int| 0 <= c < all.len() implies round_trip::exact_column(
        s.columns[c].field.data_type,
        #[trigger] all[c],
    ) by {
        let x = a[c];
        let y = b[c];
        assert forall|i: int| 0 <= i < all[c].len() implies all[c][i] == if i < x.len() {
            x[i]
        } else {
            y[i - x.len()]
        } by {}
    }
    let nullable = writer::schema_nullable(s);
    if batch::misplaced_null(nullable, all) {
        let i = choose|i: int|
            0 <= i < nullable.len() && 0 <= i < all.len() && !(#[trigger] nullable[i])
                && batch::has_null(all[i]);
        let k = choose|k: int| 0 <= k < all[i].len() && all[i][k] == CellView::Null;
        if k < a[i].len() {
            assert(a[i][k] == CellView::Null);
            assert(batch::has_null(a[i]));
        } else {
            assert(b[i][k - a[i].len()] == CellView::Null);
            assert(batch::has_null(b[i]));
        }
    }
}

proof fn lemma_settle(p: Progress)
    requires
        holds(p),
        p.state.schema.writable(),
    ensures
        holds(settle(p)),
        settle(p).state.schema == p.state.schema,
        settle(p).state.settings == p.state.settings,
        settle(p).state.data.num_rows == 0,
        writer::watched(settle(p).state.data) == writer::watched(p.state.data),
        settle(p).waiting == no_columns(p.state.schema),
        stacked(p.state.schema, settle(p).parts) == image::appended(
            stacked(p.state.schema, p.parts),
            p.waiting,
        ),
{
    let s = p.state.schema;
    let q = settle(p);
    lemma_stacked_len(s, p.parts);
    if p.state.data.num_rows == 0 {
        assert(p.waiting =~= no_columns(s)) by {
            assert forall|c: int| 0 <= c < p.waiting.len() implies p.waiting[c]
                == Seq::<CellView>::empty() by {
                assert(p.waiting[c].len() == 0);
                assert(p.waiting[c] =~= Seq::<CellView>::empty());
            }
        }
        let total = stacked(s, p.parts);
        assert(image::appended(total, p.waiting) =~= total) by {
            assert forall|c: int| 0 <= c < total.len() implies total[c] + p.waiting[c]
                == total[c] by {
                assert(total[c] + Seq::<CellView>::empty() =~= total[c]);
            }
        }
    } else {
        assert(q.parts.drop_last() =~= p.parts);
        let watched = writer::watched(p.state.data);
        assert forall|i: int| 0 <= i < watched.len() implies #[trigger] watched[i]
            < s.columns.len() by {
            assert(p.state.data.stats[i].column_index < s.columns.len());
        }
        file_round_trip::lemma_records_none(s, watched);
        assert(q.waiting =~= Seq::new(s.columns.len(), |c: int| Seq::<CellView>::empty()));
        assert(writer::watched(q.state.data) =~= watched);
        assert(file_round_trip::all_watched(s, q.state.data, q.waiting)) by {
            assert forall|i: int| 0 <= i < q.state.data.stats.len() implies (
            #[trigger] q.state.data.stats[i]).column_index < s.columns.len() && stats::is_watched(
                s.columns[q.state.data.stats[i].column_index as int].field.data_type,
                q.waiting[q.state.data.stats[i].column_index as int],
            ) by {
                assert(q.state.data.stats[i].column_index == p.state.data.stats[i].column_index);
            }
        }
        lemma_nothing_lossless(s);
        assert forall|j: int| 0 <= j < q.parts.len() implies {
            &&& file_round_trip::records(s, #[trigger] q.state.history[j], q.parts[j])
            &&& file_round_trip::lossless(s, q.parts[j])
            &&& file_round_trip::all_watched(s, q.state.history[j], q.parts[j])
            &&& q.state.history[j].num_rows > 0
        } by {
            if j < p.parts.len() {
                assert(q.state.history[j] == p.state.history[j]);
                assert(q.parts[j] == p.parts[j]);
            }
        }
    }
}

proof fn lemma_nothing_lossless(s: SchemaView)
    ensures
        file_round_trip::lossless(s, no_columns(s)),
{
    let nullable = writer::schema_nullable(s);
    let cols = no_columns(s);
    if batch::misplaced_null(nullable, cols) {
        let i = choose|i: int|
            0 <= i < nullable.len() && 0 <= i < cols.len() && !(#[trigger] nullable[i])
                && batch::has_null(cols[i]);
        assert(cols[i].len() == 0);
    }
}

proof fn lemma_started(s: SchemaView, options: WriterOptions, file: Seq<u8>)
    requires
        s.writable(),
        options.stats_columns@.len() <= u32::MAX,
    ensures
        holds(started(s, options, file)),
        writer::watched(started(s, options, file).state.data) == writer::chosen(
            s,
            options.stats_columns@,
            options.stats_columns@.len(),
        ),
{
    let p = started(s, options, file);
    let list = writer::chosen(s, options.stats_columns@, options.stats_columns@.len());
    lemma_chosen(s, options, options.stats_columns@.len());
    file_round_trip::lemma_records_none(s, list);
    lemma_nothing_lossless(s);
    assert(writer::watched(p.state.data) =~= list);
    assert(file_round_trip::all_watched(s, p.state.data, p.waiting)) by {
        assert forall|i: int| 0 <= i < p.state.data.stats.len() implies (
        #[trigger] p.state.data.stats[i]).column_index < s.columns.len() && stats::is_watched(
            s.columns[p.state.data.stats[i].column_index as int].field.data_type,
            p.waiting[p.state.data.stats[i].column_index as int],
        ) by {
            assert(p.state.data.stats[i] == stats::no_stats(list[i]));
        }
    }
}

proof fn lemma_grown(p: Progress, b: BatchCells)
    requires
        holds(p),
        p.state.schema.writable(),
        fits(p.state.schema, b),
        forall|i: int|
            0 <= i < p.state.data.stats.len() && stats::is_nanos(
                p.state.schema.columns[(
                #[trigger] p.state.data.stats[i]).column_index as int].field.data_type,
            ) ==> stats::only_nulls(b.columns[p.state.data.stats[i].column_index as int]),
    ensures
        holds(grown(p, b)),
        writer::watched(grown(p, b).state.data) == writer::watched(p.state.data),
        grown(p, b).state.schema == p.state.schema,
        grown(p, b).state.settings == p.state.settings,
        image::appended(stacked(p.state.schema, grown(p, b).parts), grown(p, b).waiting)
            == image::appended(
            image::appended(stacked(p.state.schema, p.parts), p.waiting),
            b.columns,
        ),
{
    let s = p.state.schema;
    let next = Progress {
        state: writer::with_batch(p.state, b.columns, b.num_rows),
        waiting: image::appended(p.waiting, b.columns),
        ..p
    };
    lemma_stacked_len(s, p.parts);
    file_round_trip::lemma_records_more(s, p.state.data, p.waiting, b.columns, b.num_rows);
    lemma_lossless_appended(s, p.waiting, b.columns);
    assert forall|i: int| 0 <= i < next.state.data.stats.len() implies (
    #[trigger] next.state.data.stats[i]).column_index == p.state.data.stats[i].column_index by {
        let t = p.state.data.stats[i];
        file_round_trip::lemma_with_cells_index(
            s.columns[t.column_index as int].field.data_type,
            t,
            b.columns[t.column_index as int],
        );
    }
    assert(writer::watched(next.state.data) =~= writer::watched(p.state.data));
    assert(file_round_trip::all_watched(s, next.state.data, next.waiting)) by {
        assert forall|i: int| 0 <= i < next.state.data.stats.len() implies (
        #[trigger] next.state.data.stats[i]).column_index < s.columns.len() && stats::is_watched(
            s.columns[next.state.data.stats[i].column_index as int].field.data_type,
            next.waiting[next.state.data.stats[i].column_index as int],
        ) by {
            let t = p.state.data.stats[i];
            let c = t.column_index as int;
            assert(next.state.data.stats[i].column_index == c);
            assert(next.waiting[c] == p.waiting[c] + b.columns[c]);
        }
    }
    assert(holds(next));
    let total = stacked(s, p.parts);
    assert(image::appended(total, next.waiting) =~= image::appended(
        image::appended(total, p.waiting),
        b.columns,
    )) by {
        assert forall|c: int| 0 <= c < total.len() implies total[c] + (p.waiting[c] + b.columns[c])
            == (total[c] + p.waiting[c]) + b.columns[c] by {
            assert(total[c] + (p.waiting[c] + b.columns[c]) =~= (total[c] + p.waiting[c])
                + b.columns[c]);
        }
    }
    if !(next.state.buffered < next.state.max_size) {
        lemma_settle(next);
        let q = settle(next);
        let sum = stacked(s, q.parts);
        lemma_stacked_len(s, q.parts);
        assert(image::appended(sum, q.waiting) =~= sum) by {
            assert forall|c: int| 0 <= c < sum.len() implies sum[c] + q.waiting[c] == sum[c] by {
                assert(sum[c] + Seq::<CellView>::empty() =~= sum[c]);
            }
        }
    }
}

proof fn lemma_columns_accepted(dts: Seq<DataType>, rows: Seq<Seq<CellView>>)
    requires
        dts.len() >= rows.len(),
        forall|i: int|
            0 <= i < rows.len() ==> round_trip::exact_column(dts[i], #[trigger] rows[i]),
    ensures
        bucket_writer::columns_error(dts, rows) is None,
    decreases rows.len(),
{
    if rows.len() > 0 {
        assert forall|i: int| 0 <= i < rows.drop_last().len() implies round_trip::exact_column(
            dts[i],
            #[trigger] rows.drop_last()[i],
        ) by {
            assert(rows.drop_last()[i] == rows[i]);
        }
        lemma_columns_accepted(dts, rows.drop_last());
        let last = rows.len() - 1;
        assert(round_trip::exact_column(dts[last], rows[last]));
        bucket_writer::lemma_column_error(dts[last], rows[last]);
    }
}

proof fn lemma_agreeing(dts: Seq<DataType>, declared: Seq<DataType>, n: nat)
    requires
        n <= dts.len() == declared.len(),
        forall|i: int| 0 <= i < n ==> types::same_cells(dts[i], #[trigger] declared[i]),
    ensures
        image::agreeing(dts, declared, n) == n,
    decreases n,
{
    if n > 0 {
        lemma_agreeing(dts, declared, (n - 1) as nat);
        assert(types::same_cells(dts[n - 1], declared[n - 1]));
    }
}

proof fn lemma_buckets_accepted(s: SchemaView, b: BatchCells, n: nat)
    requires
        s.writable(),
        fits(s, b),
    ensures
        image::buckets_error(s, b.types, b.columns, b.num_rows, n) is None,
    decreases n,
{
    if n > 0 {
        lemma_buckets_accepted(s, b, (n - 1) as nat);
        let part = image::bucket_part(s, b.columns, n - 1);
        let dts = image::bucket_types(s, n - 1);
        let declared = image::bucket_declared(s, b.types, n - 1);
        schema::lemma_members(s.columns, (n - 1) as nat, s.columns.len());
        assert forall|i: int| 0 <= i < part.len() implies round_trip::exact_column(
            dts[i],
            #[trigger] part[i],
        ) by {
            let c = image::bucket_members(s, n - 1)[i] as int;
            assert(part[i] == b.columns[c]);
        }
        lemma_columns_accepted(dts, part);
        assert(part.take(part.len() as int) =~= part);
        if b.num_rows > 0 {
            assert forall|i: int| 0 <= i < dts.len() implies types::same_cells(
                dts[i],
                #[trigger] declared[i],
            ) by {
                let c = image::bucket_members(s, n - 1)[i] as int;
                assert(declared[i] == b.types[c]);
            }
            lemma_agreeing(dts, declared, dts.len());
        }
    }
}

/// A writer that is not closed finds nothing wrong with a batch that fits.
pub proof fn lemma_fits_accepted(st: WriterState, b: BatchCells)
    requires
        st.schema.writable(),
        !st.closed,
        fits(st.schema, b),
        st.data.num_rows + b.num_rows <= usize::MAX,
    ensures
        writer::batch_error(st, b.types, b.columns, b.num_rows) is None,
{
    lemma_buckets_accepted(st.schema, b, st.schema.num_buckets);
}

/// A writer that has taken in batches stands for their cells: those of its row
/// groups and those that are waiting, one behind the other, are those of the batches
/// in order.
pub proof fn lemma_session(
    s: SchemaView,
    options: WriterOptions,
    file: Seq<u8>,
    batches: Seq<BatchCells>,
    n: nat,
)
    requires
        s.writable(),
        keeps_readable_stats(s, options, batches),
        n <= batches.len(),
        forall|i: int| 0 <= i < batches.len() ==> fits(s, #[trigger] batches[i]),
    ensures
        ({
            let p = after(s, options, file, batches, n);
            &&& holds(p)
            &&& p.state.schema == s
            &&& p.state.settings == writer::initial(s, options).settings
            &&& writer::watched(p.state.data) == writer::chosen(
                s,
                options.stats_columns@,
                options.stats_columns@.len(),
            )
            &&& image::appended(stacked(s, p.parts), p.waiting) == stacked(
                s,
                columns_of(batches).take(n as int),
            )
        }),
    decreases n,
{
    let p = after(s, options, file, batches, n);
    let all = columns_of(batches);
    if n == 0 {
        lemma_started(s, options, file);
        assert(all.take(0) =~= Seq::<Seq<Seq<CellView>>>::empty());
        assert(p.parts =~= Seq::<Seq<Seq<CellView>>>::empty());
        assert(image::appended(no_columns(s), no_columns(s)) =~= no_columns(s)) by {
            assert(Seq::<CellView>::empty() + Seq::<CellView>::empty() =~= Seq::<
                CellView,
            >::empty());
        }
    } else {
        lemma_session(s, options, file, batches, (n - 1) as nat);
        let before = after(s, options, file, batches, (n - 1) as nat);
        let b = batches[n - 1];
        assert(fits(s, b));
        let list = writer::chosen(s, options.stats_columns@, options.stats_columns@.len());
        lemma_chosen(s, options, options.stats_columns@.len());
        assert forall|i: int|
            0 <= i < before.state.data.stats.len() && stats::is_nanos(
                s.columns[(
                #[trigger] before.state.data.stats[i]).column_index as int].field.data_type,
            ) implies stats::only_nulls(
            b.columns[before.state.data.stats[i].column_index as int],
        ) by {
            assert(writer::watched(before.state.data)[i] == list[i]);
            let k = options.stats_columns@.index_of(list[i] as usize);
            assert(options.stats_columns@[k] == list[i]);
        }
        lemma_grown(before, batches[n - 1]);
        assert(all.take(n as int).drop_last() =~= all.take(n - 1));
        assert(all.take(n as int).last() == batches[n - 1].columns);
    }
}

/// The writer once it was handed a batch: one that something is wrong with changes
/// neither its state nor its file.
pub open spec fn handed(p: Progress, b: BatchCells) -> Progress {
    match writer::batch_error(p.state, b.types, b.columns, b.num_rows) {
        Some(_) => p,
        None => grown(p, b),
    }
}

/// A new writer that was handed the first `n` batches.
pub open spec fn after_all(
    s: SchemaView,
    options: WriterOptions,
    file: Seq<u8>,
    batches: Seq<BatchCells>,
    n: nat,
) -> Progress
    decreases n,
{
    if n == 0 {
        started(s, options, file)
    } else {
        handed(after_all(s, options, file, batches, (n - 1) as nat), batches[n - 1])
    }
}

/// Those of the first `n` batches that nothing is wrong with when they are handed over.
pub open spec fn accepted(
    s: SchemaView,
    options: WriterOptions,
    file: Seq<u8>,
    batches: Seq<BatchCells>,
    n: nat,
) -> Seq<BatchCells>
    decreases n,
{
    if n == 0 {
        Seq::empty()
    } else {
        let before = accepted(s, options, file, batches, (n - 1) as nat);
        let p = after_all(s, options, file, batches, (n - 1) as nat);
        let b = batches[n - 1];
        if writer::batch_error(p.state, b.types, b.columns, b.num_rows) is None {
            before.push(b)
        } else {
            before
        }
    }
}

proof fn lemma_after_prefix(
    s: SchemaView,
    options: WriterOptions,
    file: Seq<u8>,
    batches: Seq<BatchCells>,
    more: Seq<BatchCells>,
    n: nat,
)
    requires
        n <= batches.len(),
        batches.is_prefix_of(more),
    ensures
        after(s, options, file, more, n) == after(s, options, file, batches, n),
    decreases n,
{
    if n > 0 {
        lemma_after_prefix(s, options, file, batches, more, (n - 1) as nat);
        assert(more[n - 1] == batches[n - 1]);
    }
}

/// Batches that were refused leave no trace: the writer and its file are as if only the
/// others had been handed over.
pub proof fn lemma_refused_leave_no_trace(
    s: SchemaView,
    options: WriterOptions,
    file: Seq<u8>,
    batches: Seq<BatchCells>,
    n: nat,
)
    requires
        n <= batches.len(),
    ensures
        ({
            let taken = accepted(s, options, file, batches, n);
            after_all(s, options, file, batches, n) == after(
                s,
                options,
                file,
                taken,
                taken.len(),
            )
        }),
    decreases n,
{
    if n > 0 {
        lemma_refused_leave_no_trace(s, options, file, batches, (n - 1) as nat);
        let before = accepted(s, options, file, batches, (n - 1) as nat);
        let now = accepted(s, options, file, batches, n);
        if now.len() > before.len() {
            lemma_after_prefix(s, options, file, before, now, before.len());
        }
    }
}

/// A writer that has taken in batches, once its waiting rows are in the file.
pub open spec fn finished(
    s: SchemaView,
    options: WriterOptions,
    start: Seq<u8>,
    batches: Seq<BatchCells>,
) -> Progress {
    settle(after(s, options, start, batches, batches.len()))
}

/// The file of a writer that has taken in batches and was closed.
pub open spec fn closed_file(
    s: SchemaView,
    options: WriterOptions,
    start: Seq<u8>,
    batches: Seq<BatchCells>,
) -> Seq<u8> {
    let p = finished(s, options, start, batches);
    p.file + image::tail_bytes(p.state.settings, s, p.state.groups, p.file.len() as int)
}

/// What a closed file says of itself.
pub open spec fn closed_view(
    s: SchemaView,
    options: WriterOptions,
    start: Seq<u8>,
    batches: Seq<BatchCells>,
) -> FileView {
    let p = finished(s, options, start, batches);
    FileView { schema: s, groups: p.state.groups, compression: p.state.settings.compression }
}

/// Batches that were all taken in by a writer that was then closed. Where `close`
/// succeeds, all row groups stand in the file and everything fits in its field.
pub open spec fn is_closed_session(
    s: SchemaView,
    options: WriterOptions,
    start: Seq<u8>,
    batches: Seq<BatchCells>,
) -> bool {
    let p = finished(s, options, start, batches);
    &&& s.writable()
    &&& keeps_readable_stats(s, options, batches)
    &&& u32::MAX <= isize::MAX
    &&& forall|i: int| 0 <= i < batches.len() ==> fits(s, #[trigger] batches[i])
    &&& image::all_placed(p.file, p.state.settings, s, p.state.groups, p.state.history)
    &&& image::closable(p.state.settings, s, p.state.groups, p.file.len() as int)
}

/// What the row groups of a closed file are made of.
pub proof fn lemma_finished(
    s: SchemaView,
    options: WriterOptions,
    start: Seq<u8>,
    batches: Seq<BatchCells>,
)
    requires
        is_closed_session(s, options, start, batches),
    ensures
        ({
            let p = finished(s, options, start, batches);
            &&& p.state.schema == s
            &&& file_round_trip::usable(p.state.settings)
            &&& p.parts.len() == p.state.history.len() == p.state.groups.len()
            &&& forall|j: int|
                0 <= j < p.state.history.len() ==> file_round_trip::records(
                    s,
                    #[trigger] p.state.history[j],
                    p.parts[j],
                ) && file_round_trip::lossless(s, p.parts[j]) && file_round_trip::all_watched(
                    s,
                    p.state.history[j],
                    p.parts[j],
                ) && p.state.history[j].num_rows > 0
            &&& stacked(s, p.parts) == stacked(s, columns_of(batches))
        }),
{
    let n = batches.len();
    lemma_session(s, options, start, batches, n);
    assert(columns_of(batches).take(n as int) =~= columns_of(batches));
    lemma_settle(after(s, options, start, batches, n));
    let p = finished(s, options, start, batches);
    assert(p.state.schema == s);
    assert(holds(p));
    assert(file_round_trip::usable(p.state.settings));
    assert(p.parts.len() == p.state.groups.len());
    assert forall|j: int| 0 <= j < p.state.history.len() implies file_round_trip::records(
        s,
        #[trigger] p.state.history[j],
        p.parts[j],
    ) && file_round_trip::lossless(s, p.parts[j]) && file_round_trip::all_watched(
        s,
        p.state.history[j],
        p.parts[j],
    ) && p.state.history[j].num_rows > 0 by {}
    assert(stacked(s, p.parts) == stacked(s, columns_of(batches)));
}

/// Whether the projected columns of a row group of a closed file are sure to open, and
/// to read as the cells that were written.
pub open spec fn group_reads_back(
    s: SchemaView,
    options: WriterOptions,
    start: Seq<u8>,
    batches: Seq<BatchCells>,
    i: int,
    projected: Seq<bool>,
    order: Seq<usize>,
) -> bool {
    let file = closed_file(s, options, start, batches);
    let f = closed_view(s, options, start, batches);
    let g = f.groups[i];
    let opened = row_group::open_buckets(f, file, g, projected);
    &&& g.num_rows > 0
    &&& row_group::is_sound_group(f, file, g, projected)
    &&& opened is Ok
    &&& row_group::read_group(s, projected, order, opened->Ok_0, g.num_rows) == Ok::<
        BatchView,
        Error,
    >(
        file_round_trip::batch_of(
            s,
            finished(s, options, start, batches).parts[i],
            order,
            g.num_rows,
        ),
    )
}

proof fn lemma_group_reads_back(
    s: SchemaView,
    options: WriterOptions,
    start: Seq<u8>,
    batches: Seq<BatchCells>,
    i: int,
    projected: Seq<bool>,
    order: Seq<usize>,
)
    requires
        is_closed_session(s, options, start, batches),
        projected.len() == s.columns.len(),
        file_round_trip::is_projected(order, projected),
        0 <= i < finished(s, options, start, batches).parts.len(),
    ensures
        group_reads_back(s, options, start, batches, i, projected, order),
{
    lemma_finished(s, options, start, batches);
    let p = finished(s, options, start, batches);
    let set = p.state.settings;
    let groups = p.state.groups;
    file_round_trip::lemma_file_round_trip(
        set,
        s,
        p.file,
        groups,
        p.state.history,
        p.parts,
        i,
        projected,
        order,
    );
    assert(image::placed(p.file, set, s, groups[i], p.state.history[i]));
}

/// What was written is what is read: where batches were taken in and the file was
/// closed, any projected columns of its row groups give back the cells of the batches,
/// in order.
pub proof fn lemma_session_round_trip(
    s: SchemaView,
    options: WriterOptions,
    start: Seq<u8>,
    batches: Seq<BatchCells>,
    projected: Seq<bool>,
    order: Seq<usize>,
)
    requires
        is_closed_session(s, options, start, batches),
        projected.len() == s.columns.len(),
        file_round_trip::is_projected(order, projected),
    ensures
        ({
            let p = finished(s, options, start, batches);
            let file = closed_file(s, options, start, batches);
            let f = closed_view(s, options, start, batches);
            &&& reader::parse_file(file) == Ok::<FileView, Error>(f)
            &&& reader::is_sound_file(file)
            &&& p.parts.len() == f.groups.len()
            &&& stacked(s, p.parts) == stacked(s, columns_of(batches))
            &&& forall|i: int|
                0 <= i < f.groups.len() ==> #[trigger] group_reads_back(
                    s,
                    options,
                    start,
                    batches,
                    i,
                    projected,
                    order,
                )
        }),
{
    lemma_finished(s, options, start, batches);
    let p = finished(s, options, start, batches);
    assert forall|i: int| 0 <= i < p.parts.len() implies #[trigger] group_reads_back(
        s,
        options,
        start,
        batches,
        i,
        projected,
        order,
    ) by {
        lemma_group_reads_back(s, options, start, batches, i, projected, order);
    }
    file_round_trip::lemma_closed_file(
        p.state.settings,
        s,
        p.file,
        p.state.groups,
        p.state.history,
        p.parts,
    );
}

/// A closed file in a dependable input opens, whatever `MosaicReader::new` may give
/// elsewhere.
pub proof fn lemma_opens_again<I: InputFile>(
    s: SchemaView,
    options: WriterOptions,
    start: Seq<u8>,
    batches: Seq<BatchCells>,
    input: I,
    file_len: u64,
    opened: Result<MosaicReader<I>, Error>,
)
    requires
        is_closed_session(s, options, start, batches),
        input.dependable(),
        input.contents() == closed_file(s, options, start, batches),
        input.contents().len() == file_len,
        file_len <= usize::MAX,
        reader::is_open_result(input, file_len, opened),
    ensures
        opened is Ok,
        opened->Ok_0.file() == closed_view(s, options, start, batches),
        opened->Ok_0.contents() == closed_file(s, options, start, batches),
        opened->Ok_0.dependable(),
{
    let order = reader::all_columns(s.columns.len());
    file_round_trip::lemma_listed(order, s.columns.len());
    lemma_session_round_trip(
        s,
        options,
        start,
        batches,
        reader::flags(order, s.columns.len()),
        order,
    );
    assert(input.contents().take(file_len as int) =~= input.contents());
}

/// A row group of a closed file in a dependable input opens with any projected columns,
/// and they read as the cells that were written, whatever opening a row group may give
/// elsewhere.
pub proof fn lemma_reads_again(
    s: SchemaView,
    options: WriterOptions,
    start: Seq<u8>,
    batches: Seq<BatchCells>,
    i: int,
    projected: Seq<bool>,
    order: Seq<usize>,
    failures: Set<Error>,
    got: Result<RowGroupReader, Error>,
)
    requires
        is_closed_session(s, options, start, batches),
        projected.len() == s.columns.len(),
        file_round_trip::is_projected(order, projected),
        0 <= i < finished(s, options, start, batches).parts.len(),
        reader::is_group_result(
            closed_view(s, options, start, batches),
            closed_file(s, options, start, batches),
            true,
            failures,
            i,
            projected,
            order,
            got,
        ),
    ensures
        ({
            let p = finished(s, options, start, batches);
            let rows = closed_view(s, options, start, batches).groups[i].num_rows;
            &&& got is Ok
            &&& got->Ok_0.row_count() == rows
            &&& rows > 0
            &&& got->Ok_0.contents() == Ok::<BatchView, Error>(
                file_round_trip::batch_of(s, p.parts[i], order, rows),
            )
        }),
{
    lemma_finished(s, options, start, batches);
    lemma_group_reads_back(s, options, start, batches, i, projected, order);
}

} // verus!
