//! What comes out of a file: the cells that went in, column by column and in order, with the
//! columns, the row groups and the statistics that were asked for.

use crate::batch_laws;
use crate::error::Error;
use crate::file_round_trip;
use crate::image;
use crate::input::InputFile;
use crate::reader;
use crate::reader::{MosaicReader, ReaderAccess};
use crate::row_group::RowGroupReader;
use crate::schema::SchemaView;
use crate::session;
use crate::session::BatchCells;
use crate::stats;
use crate::types::{DataType, TimeUnit};
use crate::values::CellView;
use crate::writer;
use crate::writer::WriterOptions;
use vstd::prelude::*;

verus! {

/// Whether batches whose cells are of their columns' types were all taken in by a writer that
/// was then closed. Of timestamps in nanoseconds no statistics are kept.
pub open spec fn is_typed_session(
    s: SchemaView,
    options: WriterOptions,
    start: Seq<u8>,
    batches: Seq<BatchCells>,
) -> bool {
    let p = session::finished(s, options, start, batches);
    &&& s.writable()
    &&& options.stats_columns@.len() <= u32::MAX
    &&& forall|i: int|
        0 <= i < options.stats_columns@.len() && (#[trigger] options.stats_columns@[i])
            < s.columns.len() ==> !(s.columns[options.stats_columns@[i] as int].field.data_type matches DataType::Timestamp(
            TimeUnit::Nanosecond,
            _,
        ))
    &&& u32::MAX <= isize::MAX
    &&& forall|i: int| 0 <= i < batches.len() ==> batch_laws::is_typed(s, #[trigger] batches[i])
    &&& image::all_placed(p.file, p.state.settings, s, p.state.groups, p.state.history)
    &&& image::closable(p.state.settings, s, p.state.groups, p.file.len() as int)
}

proof fn lemma_typed_session(
    s: SchemaView,
    options: WriterOptions,
    start: Seq<u8>,
    batches: Seq<BatchCells>,
)
    requires
        is_typed_session(s, options, start, batches),
    ensures
        session::is_closed_session(s, options, start, batches),
{
    assert forall|i: int| 0 <= i < batches.len() implies session::fits(s, #[trigger] batches[i]) by {
        batch_laws::lemma_typed_fits(s, batches[i]);
    }
}

/// One column of parts that are stacked is that column of each part, one behind the other.
pub proof fn lemma_stacked_column(s: SchemaView, parts: Seq<Seq<Seq<CellView>>>, c: int)
    requires
        0 <= c < s.columns.len(),
    ensures
        session::stacked(s, parts).len() == s.columns.len(),
        session::stacked(s, parts)[c] == Seq::new(
            parts.len(),
            |j: int| parts[j][c],
        ).flatten(),
    decreases parts.len(),
{
    let list = Seq::new(parts.len(), |j: int| parts[j][c]);
    if parts.len() > 0 {
        let before = parts.drop_last();
        lemma_stacked_column(s, before, c);
        let shorter = Seq::new(before.len(), |j: int| before[j][c]);
        assert(list.drop_last() =~= shorter);
        list.lemma_flatten_and_flatten_alt_are_equivalent();
        shorter.lemma_flatten_and_flatten_alt_are_equivalent();
        assert(list.last() == parts.last()[c]);
    }
}

/// A file that was closed opens as what it was written as: with the same columns and the same
/// compression. The cells of its row groups are those of the batches, column by column and in
/// order.
pub proof fn lemma_written_is_read(
    s: SchemaView,
    options: WriterOptions,
    start: Seq<u8>,
    batches: Seq<BatchCells>,
)
    requires
        is_typed_session(s, options, start, batches),
    ensures
        ({
            let p = session::finished(s, options, start, batches);
            let opened = reader::parse_file(session::closed_file(s, options, start, batches));
            &&& opened is Ok
            &&& opened->Ok_0.schema == s
            &&& opened->Ok_0.compression == options.compression
            &&& opened->Ok_0.groups.len() == p.parts.len()
            &&& forall|j: int|
                0 <= j < p.parts.len() ==> (#[trigger] p.parts[j]).len() == s.columns.len()
            &&& forall|j: int, c: int|
                0 <= j < p.parts.len() && 0 <= c < s.columns.len() ==> (
                #[trigger] p.parts[j][c]).len() == opened->Ok_0.groups[j].num_rows
            &&& forall|c: int|
                0 <= c < s.columns.len() ==> #[trigger] all_cells(p.parts, c) == Seq::new(
                    batches.len(),
                    |i: int| batches[i].columns[c],
                ).flatten()
        }),
{
    lemma_typed_session(s, options, start, batches);
    let order = reader::all_columns(s.columns.len());
    file_round_trip::lemma_listed(order, s.columns.len());
    session::lemma_session_round_trip(
        s,
        options,
        start,
        batches,
        reader::flags(order, s.columns.len()),
        order,
    );
    session::lemma_finished(s, options, start, batches);
    let p = session::finished(s, options, start, batches);
    let n = batches.len();
    session::lemma_session(s, options, start, batches, n);
    assert(p.state.settings == writer::initial(s, options).settings);
    assert forall|j: int| 0 <= j < p.parts.len() implies {
        &&& (#[trigger] p.parts[j]).len() == s.columns.len()
        &&& p.state.groups[j].num_rows == p.state.history[j].num_rows
        &&& forall|c: int|
            0 <= c < s.columns.len() ==> (#[trigger] p.parts[j][c]).len()
                == p.state.history[j].num_rows
    } by {
        assert(file_round_trip::records(s, p.state.history[j], p.parts[j]));
        assert(image::placed(
            p.file,
            p.state.settings,
            s,
            p.state.groups[j],
            p.state.history[j],
        ));
    }
    assert forall|c: int| 0 <= c < s.columns.len() implies #[trigger] all_cells(p.parts, c)
        == Seq::new(batches.len(), |i: int| batches[i].columns[c]).flatten() by {
        lemma_stacked_column(s, p.parts, c);
        lemma_stacked_column(s, session::columns_of(batches), c);
        assert(Seq::new(batches.len(), |i: int| session::columns_of(batches)[i][c]) =~= Seq::new(
            batches.len(),
            |i: int| batches[i].columns[c],
        ));
    }
}

/// The cells of a column in all parts, one part behind the other.
pub open spec fn all_cells(parts: Seq<Seq<Seq<CellView>>>, c: int) -> Seq<CellView> {
    Seq::new(parts.len(), |j: int| parts[j][c]).flatten()
}

/// A row group of a file that was closed opens in a dependable input with any columns, and
/// reading it gives those columns in the order that was asked for: their fields, and of each
/// the cells that were written, as many as there are rows.
pub proof fn lemma_group_is_read(
    s: SchemaView,
    options: WriterOptions,
    start: Seq<u8>,
    batches: Seq<BatchCells>,
    j: int,
    projected: Seq<bool>,
    order: Seq<usize>,
    failures: Set<Error>,
    got: Result<RowGroupReader, Error>,
)
    requires
        is_typed_session(s, options, start, batches),
        0 <= j < session::finished(s, options, start, batches).parts.len(),
        projected.len() == s.columns.len(),
        forall|k: int|
            0 <= k < order.len() ==> #[trigger] order[k] < s.columns.len()
                && projected[order[k] as int],
        reader::is_group_result(
            session::closed_view(s, options, start, batches),
            session::closed_file(s, options, start, batches),
            true,
            failures,
            j,
            projected,
            order,
            got,
        ),
    ensures
        ({
            let part = session::finished(s, options, start, batches).parts[j];
            &&& got is Ok
            &&& got->Ok_0.contents() is Ok
            &&& {
                let b = got->Ok_0.contents()->Ok_0;
                &&& b.fields.len() == order.len()
                &&& b.columns.len() == order.len()
                &&& b.num_rows > 0
                &&& forall|k: int|
                    0 <= k < order.len() ==> (#[trigger] b.fields[k])
                        == s.columns[order[k] as int].field
                &&& forall|k: int|
                    0 <= k < order.len() ==> (#[trigger] b.columns[k]) == part[order[k] as int]
                &&& forall|k: int|
                    0 <= k < order.len() ==> (#[trigger] b.columns[k]).len() == b.num_rows
            }
        }),
{
    lemma_typed_session(s, options, start, batches);
    session::lemma_reads_again(
        s,
        options,
        start,
        batches,
        j,
        projected,
        order,
        failures,
        got,
    );
    let part = session::finished(s, options, start, batches).parts[j];
    let b = got->Ok_0.contents()->Ok_0;
    assert forall|k: int| 0 <= k < order.len() implies (#[trigger] b.columns[k]).len()
        == b.num_rows by {
        assert(order[k] < s.columns.len());
        lemma_part_len(s, options, start, batches, j, order[k] as int);
        assert(b.columns[k] == part[order[k] as int]);
    }
}

proof fn lemma_part_len(
    s: SchemaView,
    options: WriterOptions,
    start: Seq<u8>,
    batches: Seq<BatchCells>,
    j: int,
    c: int,
)
    requires
        session::is_closed_session(s, options, start, batches),
        0 <= j < session::finished(s, options, start, batches).parts.len(),
        0 <= c < s.columns.len(),
    ensures
        session::finished(s, options, start, batches).parts[j][c].len() == session::closed_view(
            s,
            options,
            start,
            batches,
        ).groups[j].num_rows,
{
    session::lemma_finished(s, options, start, batches);
    let p = session::finished(s, options, start, batches);
    assert(file_round_trip::records(s, p.state.history[j], p.parts[j]));
    assert(image::placed(p.file, p.state.settings, s, p.state.groups[j], p.state.history[j]));
}

/// Statistics are kept of those columns that are listed, in the order of the list, that the
/// file has, and that are neither bytes nor decimals of more than 18 digits.
pub proof fn lemma_watched_columns(s: SchemaView, listed: Seq<usize>, n: nat)
    requires
        n <= listed.len(),
    ensures
        writer::chosen(s, listed, n).len() == listed.take(n as int).filter(
            |c: usize| is_watched_column(s, c),
        ).len(),
        forall|k: int|
            0 <= k < writer::chosen(s, listed, n).len() ==> #[trigger] writer::chosen(
                s,
                listed,
                n,
            )[k] == listed.take(n as int).filter(|c: usize| is_watched_column(s, c))[k],
    decreases n,
{
    reveal(Seq::filter);
    if n > 0 {
        lemma_watched_columns(s, listed, (n - 1) as nat);
        assert(listed.take(n as int).drop_last() =~= listed.take(n - 1));
        assert(listed.take(n as int).last() == listed[n - 1]);
    }
}

/// Whether a file has a column of the given place, and statistics of it can be kept.
pub open spec fn is_watched_column(s: SchemaView, c: usize) -> bool {
    c < s.columns.len() && match s.columns[c as int].field.data_type {
        DataType::Binary | DataType::Unsupported => false,
        DataType::Decimal128(p, _) => p <= 18,
        _ => true,
    }
}

/// The statistics that a closed file has of its row groups: one for each watched column, with
/// what the cells of the column in that row group give.
pub proof fn lemma_file_statistics(
    s: SchemaView,
    options: WriterOptions,
    start: Seq<u8>,
    batches: Seq<BatchCells>,
    j: int,
)
    requires
        is_typed_session(s, options, start, batches),
        0 <= j < session::finished(s, options, start, batches).parts.len(),
    ensures
        ({
            let part = session::finished(s, options, start, batches).parts[j];
            let opened = reader::parse_file(session::closed_file(s, options, start, batches));
            let listed = options.stats_columns@.filter(|c: usize| is_watched_column(s, c));
            let kept = opened->Ok_0.groups[j].stats;
            &&& opened is Ok
            &&& kept.len() == listed.len()
            &&& forall|k: int|
                0 <= k < kept.len() ==> (#[trigger] kept[k]) == stats::with_cells(
                    s.columns[listed[k] as int].field.data_type,
                    stats::no_stats(listed[k] as nat),
                    part[listed[k] as int],
                )
        }),
{
    lemma_typed_session(s, options, start, batches);
    lemma_written_is_read(s, options, start, batches);
    let order = reader::all_columns(s.columns.len());
    file_round_trip::lemma_listed(order, s.columns.len());
    session::lemma_session_round_trip(
        s,
        options,
        start,
        batches,
        reader::flags(order, s.columns.len()),
        order,
    );
    session::lemma_finished(s, options, start, batches);
    let p = session::finished(s, options, start, batches);
    let listed = options.stats_columns@;
    lemma_watched_columns(s, listed, listed.len());
    assert(listed.take(listed.len() as int) =~= listed);
    lemma_history_watched(s, options, start, batches, batches.len());
    let d = p.state.history[j];
    assert(file_round_trip::records(s, d, p.parts[j]));
    assert(image::placed(p.file, p.state.settings, s, p.state.groups[j], d));
    assert(writer::watched(d) == writer::chosen(s, listed, listed.len()));
    assert forall|k: int| 0 <= k < d.stats.len() implies (#[trigger] d.stats[k]).column_index
        == writer::chosen(s, listed, listed.len())[k] by {
        assert(writer::watched(d)[k] == d.stats[k].column_index);
    }
}

/// All row groups have statistics of the same columns.
proof fn lemma_history_watched(
    s: SchemaView,
    options: WriterOptions,
    start: Seq<u8>,
    batches: Seq<BatchCells>,
    n: nat,
)
    requires
        n <= batches.len(),
        s.writable(),
        session::keeps_readable_stats(s, options, batches),
        forall|i: int| 0 <= i < batches.len() ==> session::fits(s, #[trigger] batches[i]),
    ensures
        ({
            let p = session::after(s, options, start, batches, n);
            let q = session::settle(p);
            let list = writer::chosen(s, options.stats_columns@, options.stats_columns@.len());
            &&& writer::watched(p.state.data) == list
            &&& forall|j: int|
                0 <= j < p.state.history.len() ==> writer::watched(#[trigger] p.state.history[j])
                    == list
            &&& forall|j: int|
                0 <= j < q.state.history.len() ==> writer::watched(#[trigger] q.state.history[j])
                    == list
        }),
    decreases n,
{
    session::lemma_session(s, options, start, batches, n);
    let list = writer::chosen(s, options.stats_columns@, options.stats_columns@.len());
    let p = session::after(s, options, start, batches, n);
    if n > 0 {
        let m = (n - 1) as nat;
        lemma_history_watched(s, options, start, batches, m);
        session::lemma_session(s, options, start, batches, m);
        let before = session::after(s, options, start, batches, m);
        let b = batches[n - 1];
        let next = session::Progress {
            state: writer::with_batch(before.state, b.columns, b.num_rows),
            waiting: image::appended(before.waiting, b.columns),
            ..before
        };
        assert forall|i: int| 0 <= i < next.state.data.stats.len() implies (
        #[trigger] next.state.data.stats[i]).column_index
            == before.state.data.stats[i].column_index by {
            let t = before.state.data.stats[i];
            file_round_trip::lemma_with_cells_index(
                s.columns[t.column_index as int].field.data_type,
                t,
                b.columns[t.column_index as int],
            );
        }
        assert(writer::watched(next.state.data) =~= writer::watched(before.state.data));
        assert(p == if next.state.buffered < next.state.max_size {
            next
        } else {
            session::settle(next)
        });
        assert forall|j: int| 0 <= j < p.state.history.len() implies writer::watched(
            #[trigger] p.state.history[j],
        ) == list by {
            if j < before.state.history.len() {
                assert(p.state.history[j] == before.state.history[j]);
            }
        }
    }
    let q = session::settle(p);
    assert forall|j: int| 0 <= j < q.state.history.len() implies writer::watched(
        #[trigger] q.state.history[j],
    ) == list by {
        if j < p.state.history.len() {
            assert(q.state.history[j] == p.state.history[j]);
        }
    }
}

/// A closed file in a dependable input opens with the columns that it was written with.
pub proof fn lemma_file_opens<I: InputFile>(
    s: SchemaView,
    options: WriterOptions,
    start: Seq<u8>,
    batches: Seq<BatchCells>,
    input: I,
    file_len: u64,
    opened: Result<MosaicReader<I>, Error>,
)
    requires
        is_typed_session(s, options, start, batches),
        input.dependable(),
        input.contents() == session::closed_file(s, options, start, batches),
        input.contents().len() == file_len,
        file_len <= usize::MAX,
        reader::is_open_result(input, file_len, opened),
    ensures
        opened is Ok,
        opened->Ok_0.file().schema == s,
        opened->Ok_0.file().groups.len() == session::finished(
            s,
            options,
            start,
            batches,
        ).parts.len(),
        opened->Ok_0.projection() is None,
{
    lemma_typed_session(s, options, start, batches);
    session::lemma_opens_again(s, options, start, batches, input, file_len, opened);
    session::lemma_finished(s, options, start, batches);
}

} // verus!
