//! When a row group is full: once the bytes of its cells reach the size that was asked for.

use crate::bits;
use crate::bucket_writer;
use crate::encoding;
use crate::image;
use crate::schema;
use crate::schema::SchemaView;
use crate::session;
use crate::session::{BatchCells, Progress};
use crate::types::DataType;
use crate::values;
use crate::values::CellView;
use crate::varint;
use crate::writer;
use crate::writer::{WriterOptions, WriterState};
use vstd::prelude::*;

verus! {

/// How many bytes the cells of a column take: those of each that is not null.
pub open spec fn cells_total(dt: DataType, rows: Seq<CellView>) -> nat
    decreases rows.len(),
{
    if rows.len() == 0 {
        0
    } else {
        cells_total(dt, rows.drop_last()) + (if rows.last() == CellView::Null {
            0
        } else {
            values::stored(dt, rows.last()).len()
        })
    }
}

/// How many bytes the cells of the first `n` columns take.
pub open spec fn columns_total(s: SchemaView, cols: Seq<Seq<CellView>>, n: nat) -> nat
    decreases n,
{
    if n == 0 {
        0
    } else {
        columns_total(s, cols, (n - 1) as nat) + cells_total(
            s.columns[n - 1].field.data_type,
            cols[n - 1],
        )
    }
}

/// How many bytes are counted for the nulls of rows in the first `n` buckets: for each row
/// one bit for each column, filled up to bytes in each bucket.
pub open spec fn nulls_total(s: SchemaView, num_rows: nat, n: nat) -> nat
    decreases n,
{
    if n == 0 {
        0
    } else {
        nulls_total(s, num_rows, (n - 1) as nat) + num_rows * ((schema::members(
            s.columns,
            (n - 1) as nat,
            s.columns.len(),
        ).len() + 7) / 8)
    }
}

/// The size of rows: what their cells take and what is counted for their nulls.
pub open spec fn rows_size(s: SchemaView, cols: Seq<Seq<CellView>>, num_rows: nat) -> nat {
    columns_total(s, cols, s.columns.len()) + nulls_total(s, num_rows, s.num_buckets)
}

/// How many bytes a cell takes: as many as its type has where that is fixed, and those of its
/// length and its content otherwise.
pub proof fn lemma_stored_len(dt: DataType, c: CellView)
    requires
        values::cell_error(dt, c) is None,
        c != CellView::Null,
    ensures
        c is Boolean || c is Int8 ==> values::stored(dt, c).len() == 1,
        c is Int16 ==> values::stored(dt, c).len() == 2,
        c is Int32 || c is Float32 || c is Date32 || c is Time32 ==> values::stored(dt, c).len()
            == 4,
        c is Int64 || c is Float64 || c is TimestampMillis || c is TimestampMicros
            ==> values::stored(dt, c).len() == 8,
        c is TimestampNanos || c is LegacyTimestampNanos ==> values::stored(dt, c).len() == 12,
        c matches CellView::Utf8(b) ==> values::stored(dt, c).len() == varint::leb(b.len()).len()
            + b.len(),
        c matches CellView::Binary(b) ==> values::stored(dt, c).len() == varint::leb(
            b.len(),
        ).len() + b.len(),
        c is Decimal128 && dt->Decimal128_0 <= 18 ==> values::stored(dt, c).len() == 8,
{
    let v = values::value_of(dt, c);
    values::lemma_value_bytes_len(dt, v);
}

/// The length of a number of seven bits in each byte.
pub proof fn lemma_length_of_length(n: nat)
    ensures
        n < 0x80 ==> varint::leb(n).len() == 1,
        0x80 <= n < 0x4000 ==> varint::leb(n).len() == 2,
        0x4000 <= n < 0x20_0000 ==> varint::leb(n).len() == 3,
        0x20_0000 <= n < 0x1000_0000 ==> varint::leb(n).len() == 4,
        0x1000_0000 <= n <= u32::MAX ==> varint::leb(n).len() == 5,
{
    reveal_with_fuel(varint::leb, 6);
}

proof fn lemma_cells_total(dt: DataType, rows: Seq<CellView>)
    ensures
        encoding::flat(encoding::vals(dt, rows)).len() == cells_total(dt, rows),
    decreases rows.len(),
{
    if rows.len() > 0 {
        lemma_cells_total(dt, rows.drop_last());
        if rows.last() != CellView::Null {
            encoding::lemma_flat_push(
                encoding::vals(dt, rows.drop_last()),
                values::stored(dt, rows.last()),
            );
        }
    }
}

/// What the cells of two parts of a column take is what they take together.
pub proof fn lemma_cells_total_sum(dt: DataType, a: Seq<CellView>, b: Seq<CellView>)
    ensures
        cells_total(dt, a + b) == cells_total(dt, a) + cells_total(dt, b),
    decreases b.len(),
{
    if b.len() == 0 {
        assert(a + b =~= a);
    } else {
        lemma_cells_total_sum(dt, a, b.drop_last());
        assert((a + b).drop_last() =~= a + b.drop_last());
        assert((a + b).last() == b.last());
    }
}

/// What the columns of one bucket among the first `n` take.
spec fn bucket_total(s: SchemaView, cols: Seq<Seq<CellView>>, b: nat, n: nat) -> nat
    decreases n,
{
    if n == 0 {
        0
    } else {
        bucket_total(s, cols, b, (n - 1) as nat) + (if s.columns[n - 1].bucket_id == b {
            cells_total(s.columns[n - 1].field.data_type, cols[n - 1])
        } else {
            0
        })
    }
}

spec fn member_types(s: SchemaView, list: Seq<usize>) -> Seq<DataType> {
    Seq::new(list.len(), |k: int| s.columns[list[k] as int].field.data_type)
}

spec fn member_cells(cols: Seq<Seq<CellView>>, list: Seq<usize>) -> Seq<Seq<CellView>> {
    Seq::new(list.len(), |k: int| cols[list[k] as int])
}

proof fn lemma_stored_size_prefix(
    dts: Seq<DataType>,
    more: Seq<DataType>,
    rows: Seq<Seq<CellView>>,
)
    requires
        rows.len() <= dts.len() <= more.len(),
        forall|k: int| 0 <= k < dts.len() ==> dts[k] == more[k],
    ensures
        bucket_writer::stored_size(dts, rows) == bucket_writer::stored_size(more, rows),
    decreases rows.len(),
{
    if rows.len() > 0 {
        lemma_stored_size_prefix(dts, more, rows.drop_last());
    }
}

proof fn lemma_bucket_total(s: SchemaView, cols: Seq<Seq<CellView>>, b: nat, n: nat)
    requires
        n <= s.columns.len() <= usize::MAX,
    ensures
        ({
            let list = schema::members(s.columns, b, n);
            bucket_writer::stored_size(member_types(s, list), member_cells(cols, list))
                == bucket_total(s, cols, b, n)
        }),
    decreases n,
{
    if n > 0 {
        let m = (n - 1) as nat;
        lemma_bucket_total(s, cols, b, m);
        if s.columns[n - 1].bucket_id == b {
            let before = schema::members(s.columns, b, m);
            let list = schema::members(s.columns, b, n);
            let rows = member_cells(cols, list);
            assert(rows.drop_last() =~= member_cells(cols, before));
            lemma_stored_size_prefix(
                member_types(s, before),
                member_types(s, list),
                member_cells(cols, before),
            );
            assert(rows.last() == cols[n - 1]);
            lemma_cells_total(s.columns[n - 1].field.data_type, cols[n - 1]);
        }
    }
}

/// What the first `b` buckets take of the first `n` columns.
spec fn grid_total(s: SchemaView, cols: Seq<Seq<CellView>>, b: nat, n: nat) -> nat
    decreases b,
{
    if b == 0 {
        0
    } else {
        grid_total(s, cols, (b - 1) as nat, n) + bucket_total(s, cols, (b - 1) as nat, n)
    }
}

proof fn lemma_grid_step(s: SchemaView, cols: Seq<Seq<CellView>>, b: nat, n: nat)
    requires
        n > 0,
    ensures
        grid_total(s, cols, b, n) == grid_total(s, cols, b, (n - 1) as nat) + (if s.columns[n
            - 1].bucket_id < b {
            cells_total(s.columns[n - 1].field.data_type, cols[n - 1])
        } else {
            0
        }),
    decreases b,
{
    if b > 0 {
        lemma_grid_step(s, cols, (b - 1) as nat, n);
    }
}

proof fn lemma_grid_none(s: SchemaView, cols: Seq<Seq<CellView>>, b: nat)
    ensures
        grid_total(s, cols, b, 0) == 0,
    decreases b,
{
    if b > 0 {
        lemma_grid_none(s, cols, (b - 1) as nat);
    }
}

proof fn lemma_grid(s: SchemaView, cols: Seq<Seq<CellView>>, n: nat)
    requires
        s.writable(),
        n <= s.columns.len(),
    ensures
        grid_total(s, cols, s.num_buckets, n) == columns_total(s, cols, n),
    decreases n,
{
    if n == 0 {
        lemma_grid_none(s, cols, s.num_buckets);
    } else {
        lemma_grid(s, cols, (n - 1) as nat);
        lemma_grid_step(s, cols, s.num_buckets, n);
        assert(schema::writable_column(s.columns[n - 1], s.num_buckets));
    }
}

proof fn lemma_buckets_size(s: SchemaView, cols: Seq<Seq<CellView>>, num_rows: nat, b: nat)
    requires
        s.columns.len() <= usize::MAX,
        num_rows > 0,
    ensures
        ({
            let total = grid_total(s, cols, b, s.columns.len()) + nulls_total(s, num_rows, b);
            let counted = image::buckets_size(s, cols, num_rows, b);
            &&& counted <= total
            &&& total <= usize::MAX ==> counted == total
            &&& total > usize::MAX ==> counted >= usize::MAX
        }),
    decreases b,
{
    if b > 0 {
        let m = (b - 1) as nat;
        lemma_buckets_size(s, cols, num_rows, m);
        let list = image::bucket_members(s, b - 1);
        lemma_bucket_total(s, cols, m, s.columns.len());
        assert(image::bucket_types(s, b - 1) =~= member_types(s, list));
        assert(image::bucket_part(s, cols, b - 1) =~= member_cells(cols, list));
        let each = (list.len() + 7) / 8;
        assert(bits::byte_count(list.len() as int) == each);
        assert(num_rows * each >= 0) by (nonlinear_arith)
            requires
                each >= 0,
                num_rows >= 0,
        ;
        if list.len() == 0 {
            assert(each == 0);
            assert(num_rows * each == 0) by (nonlinear_arith)
                requires
                    each == 0,
            ;
            assert(member_cells(cols, list).len() == 0);
        }
    }
}

proof fn lemma_no_cells(s: SchemaView, cols: Seq<Seq<CellView>>, n: nat)
    requires
        n <= cols.len(),
        forall|c: int| 0 <= c < cols.len() ==> (#[trigger] cols[c]).len() == 0,
    ensures
        columns_total(s, cols, n) == 0,
    decreases n,
{
    if n > 0 {
        lemma_no_cells(s, cols, (n - 1) as nat);
        assert(cols[n - 1].len() == 0);
    }
}

proof fn lemma_no_nulls(s: SchemaView, n: nat)
    ensures
        nulls_total(s, 0, n) == 0,
    decreases n,
{
    if n > 0 {
        lemma_no_nulls(s, (n - 1) as nat);
        let each = (schema::members(s.columns, (n - 1) as nat, s.columns.len()).len() + 7) / 8;
        assert(0 * each == 0) by (nonlinear_arith);
    }
}

proof fn lemma_no_size(s: SchemaView, cols: Seq<Seq<CellView>>, n: nat)
    ensures
        image::buckets_size(s, cols, 0, n) == 0,
    decreases n,
{
    if n > 0 {
        lemma_no_size(s, cols, (n - 1) as nat);
    }
}

/// The size that is counted for a batch is that of all its columns, of whatever type, and of
/// its nulls, as long as that is a size that memory can have.
pub proof fn lemma_counted_size(s: SchemaView, cols: Seq<Seq<CellView>>, num_rows: nat)
    requires
        s.writable(),
        cols.len() == s.columns.len(),
        forall|c: int| 0 <= c < cols.len() ==> (#[trigger] cols[c]).len() == num_rows,
    ensures
        ({
            let total = rows_size(s, cols, num_rows);
            let counted = image::buckets_size(s, cols, num_rows, s.num_buckets);
            &&& counted <= total
            &&& total <= usize::MAX ==> counted == total
            &&& total > usize::MAX ==> counted >= usize::MAX
        }),
{
    if num_rows == 0 {
        lemma_no_cells(s, cols, cols.len());
        lemma_no_nulls(s, s.num_buckets);
        lemma_no_size(s, cols, s.num_buckets);
    } else {
        lemma_grid(s, cols, s.columns.len());
        lemma_buckets_size(s, cols, num_rows, s.num_buckets);
    }
}

/// A batch adds its size to what is waiting.
pub proof fn lemma_waiting_grows(st: WriterState, cols: Seq<Seq<CellView>>, num_rows: nat)
    requires
        st.schema.writable(),
        cols.len() == st.schema.columns.len(),
        forall|c: int| 0 <= c < cols.len() ==> (#[trigger] cols[c]).len() == num_rows,
    ensures
        ({
            let total = st.buffered + rows_size(st.schema, cols, num_rows);
            let counted = writer::with_batch(st, cols, num_rows).buffered;
            &&& counted >= st.buffered
            &&& total <= usize::MAX ==> counted == total
            &&& total > usize::MAX ==> counted >= usize::MAX
        }),
{
    lemma_counted_size(st.schema, cols, num_rows);
}

proof fn lemma_columns_total_sum(
    s: SchemaView,
    a: Seq<Seq<CellView>>,
    b: Seq<Seq<CellView>>,
    n: nat,
)
    requires
        n <= a.len(),
        n <= b.len(),
    ensures
        columns_total(s, image::appended(a, b), n) == columns_total(s, a, n) + columns_total(
            s,
            b,
            n,
        ),
    decreases n,
{
    if n > 0 {
        lemma_columns_total_sum(s, a, b, (n - 1) as nat);
        lemma_cells_total_sum(s.columns[n - 1].field.data_type, a[n - 1], b[n - 1]);
    }
}

proof fn lemma_nulls_total_sum(s: SchemaView, a: nat, b: nat, n: nat)
    ensures
        nulls_total(s, a + b, n) == nulls_total(s, a, n) + nulls_total(s, b, n),
    decreases n,
{
    if n > 0 {
        lemma_nulls_total_sum(s, a, b, (n - 1) as nat);
        let each = ((schema::members(s.columns, (n - 1) as nat, s.columns.len()).len() + 7)
            / 8) as int;
        assert((a + b) * each == a * each + b * each) by (nonlinear_arith);
    }
}

/// The sizes of two batches add up.
pub proof fn lemma_size_sum(
    s: SchemaView,
    a: Seq<Seq<CellView>>,
    m: nat,
    b: Seq<Seq<CellView>>,
    n: nat,
)
    requires
        a.len() == s.columns.len(),
        b.len() == s.columns.len(),
    ensures
        rows_size(s, image::appended(a, b), m + n) == rows_size(s, a, m) + rows_size(s, b, n),
{
    lemma_columns_total_sum(s, a, b, s.columns.len());
    lemma_nulls_total_sum(s, m, n, s.num_buckets);
}

/// Whether the columns of a batch are those of a schema and have as many cells as it has rows.
pub open spec fn is_even(s: SchemaView, b: BatchCells) -> bool {
    &&& b.columns.len() == s.columns.len()
    &&& forall|c: int| 0 <= c < b.columns.len() ==> (#[trigger] b.columns[c]).len() == b.num_rows
}

/// What holds of sizes while batches are taken in: the rows that are waiting were counted, and
/// every row group that was written is full.
spec fn is_counted(p: Progress) -> bool {
    let s = p.state.schema;
    let size = rows_size(s, p.waiting, p.state.data.num_rows);
    &&& p.waiting.len() == s.columns.len()
    &&& forall|c: int|
        0 <= c < p.waiting.len() ==> (#[trigger] p.waiting[c]).len() == p.state.data.num_rows
    &&& p.state.buffered <= size
    &&& size <= usize::MAX ==> p.state.buffered == size
    &&& size > usize::MAX ==> p.state.buffered >= usize::MAX
    &&& p.parts.len() == p.state.history.len()
    &&& forall|j: int|
        0 <= j < p.parts.len() ==> rows_size(
            s,
            #[trigger] p.parts[j],
            p.state.history[j].num_rows,
        ) >= p.state.max_size && p.state.history[j].num_rows > 0
}

proof fn lemma_none_waiting(s: SchemaView)
    ensures
        rows_size(s, session::no_columns(s), 0) == 0,
{
    lemma_no_cells(s, session::no_columns(s), s.columns.len());
    lemma_no_nulls(s, s.num_buckets);
}

proof fn lemma_counted_step(p: Progress, b: BatchCells)
    requires
        is_counted(p),
        p.state.schema.writable(),
        is_even(p.state.schema, b),
    ensures
        is_counted(session::grown(p, b)),
        session::grown(p, b).state.schema == p.state.schema,
        session::grown(p, b).state.max_size == p.state.max_size,
        session::grown(p, b).state.data.num_rows > 0 ==> session::grown(p, b).state.buffered
            < p.state.max_size,
{
    let s = p.state.schema;
    let next = Progress {
        state: writer::with_batch(p.state, b.columns, b.num_rows),
        waiting: image::appended(p.waiting, b.columns),
        ..p
    };
    lemma_counted_size(s, b.columns, b.num_rows);
    lemma_size_sum(s, p.waiting, p.state.data.num_rows, b.columns, b.num_rows);
    assert(is_counted(next));
    let q = session::grown(p, b);
    if !(next.state.buffered < next.state.max_size) && next.state.data.num_rows > 0 {
        assert(q == session::settle(next));
        lemma_none_waiting(s);
        assert(q.waiting == session::no_columns(s));
        assert forall|j: int| 0 <= j < q.parts.len() implies rows_size(
            s,
            #[trigger] q.parts[j],
            q.state.history[j].num_rows,
        ) >= q.state.max_size && q.state.history[j].num_rows > 0 by {
            if j < next.parts.len() {
                assert(q.parts[j] == next.parts[j]);
                assert(q.state.history[j] == next.state.history[j]);
            }
        }
    }
}

proof fn lemma_counted(
    s: SchemaView,
    options: WriterOptions,
    file: Seq<u8>,
    batches: Seq<BatchCells>,
    n: nat,
)
    requires
        s.writable(),
        n <= batches.len(),
        forall|i: int| 0 <= i < batches.len() ==> is_even(s, #[trigger] batches[i]),
    ensures
        ({
            let p = session::after(s, options, file, batches, n);
            &&& is_counted(p)
            &&& p.state.schema == s
            &&& p.state.max_size == options.row_group_max_size
            &&& p.state.data.num_rows > 0 ==> p.state.buffered < p.state.max_size
        }),
    decreases n,
{
    if n == 0 {
        lemma_none_waiting(s);
    } else {
        lemma_counted(s, options, file, batches, (n - 1) as nat);
        assert(is_even(s, batches[n - 1]));
        lemma_counted_step(
            session::after(s, options, file, batches, (n - 1) as nat),
            batches[n - 1],
        );
    }
}

/// Rows wait only as long as their size is below the one that was asked for.
pub proof fn lemma_waiting_below_limit(
    s: SchemaView,
    options: WriterOptions,
    file: Seq<u8>,
    batches: Seq<BatchCells>,
    n: nat,
)
    requires
        s.writable(),
        n <= batches.len(),
        forall|i: int| 0 <= i < batches.len() ==> is_even(s, #[trigger] batches[i]),
    ensures
        ({
            let p = session::after(s, options, file, batches, n);
            let size = rows_size(s, p.waiting, p.state.data.num_rows);
            &&& forall|c: int|
                0 <= c < p.waiting.len() ==> (#[trigger] p.waiting[c]).len()
                    == p.state.data.num_rows
            &&& size <= usize::MAX ==> p.state.buffered == size
            &&& p.state.data.num_rows > 0 && size <= usize::MAX ==> size
                < options.row_group_max_size
        }),
{
    lemma_counted(s, options, file, batches, n);
}

/// A row group is written only once the size of its rows has reached the one that was asked
/// for; only closing a file writes a smaller one, at the end.
pub proof fn lemma_groups_full(
    s: SchemaView,
    options: WriterOptions,
    file: Seq<u8>,
    batches: Seq<BatchCells>,
)
    requires
        s.writable(),
        forall|i: int| 0 <= i < batches.len() ==> is_even(s, #[trigger] batches[i]),
    ensures
        ({
            let p = session::finished(s, options, file, batches);
            &&& p.parts.len() == p.state.history.len()
            &&& forall|j: int|
                0 <= j < p.parts.len() ==> (#[trigger] p.state.history[j]).num_rows > 0
            &&& forall|j: int|
                0 <= j < p.parts.len() - 1 ==> rows_size(
                    s,
                    #[trigger] p.parts[j],
                    p.state.history[j].num_rows,
                ) >= options.row_group_max_size
        }),
{
    let before = session::after(s, options, file, batches, batches.len());
    lemma_counted(s, options, file, batches, batches.len());
    let p = session::finished(s, options, file, batches);
    assert forall|j: int| 0 <= j < p.parts.len() implies (
    #[trigger] p.state.history[j]).num_rows > 0 by {
        if j < before.parts.len() {
            assert(p.state.history[j] == before.state.history[j]);
            assert(before.parts[j] == p.parts[j]);
        }
    }
    assert forall|j: int| 0 <= j < p.parts.len() - 1 implies rows_size(
        s,
        #[trigger] p.parts[j],
        p.state.history[j].num_rows,
    ) >= options.row_group_max_size by {
        assert(p.parts[j] == before.parts[j]);
        assert(p.state.history[j] == before.state.history[j]);
    }
}

/// A batch that brings the size of what is waiting to the one that was asked for is written at
/// once together with it, as one row group; one that does not is kept.
pub proof fn lemma_when_written(p: Progress, b: BatchCells)
    requires
        p.state.schema.writable(),
        is_even(p.state.schema, b),
        p.state.buffered + rows_size(p.state.schema, b.columns, b.num_rows) <= usize::MAX,
    ensures
        ({
            let size = p.state.buffered + rows_size(p.state.schema, b.columns, b.num_rows);
            let rows = p.state.data.num_rows + b.num_rows;
            let q = session::grown(p, b);
            if size >= p.state.max_size && rows > 0 {
                &&& q.parts == p.parts.push(image::appended(p.waiting, b.columns))
                &&& q.state.data.num_rows == 0
                &&& q.state.buffered == 0
                &&& q.state.groups.len() == p.state.groups.len() + 1
                &&& q.state.groups.last().num_rows == rows
            } else {
                &&& q.parts == p.parts
                &&& q.waiting == image::appended(p.waiting, b.columns)
                &&& q.state.data.num_rows == rows
                &&& q.state.buffered == size
                &&& q.state.groups == p.state.groups
                &&& q.file == p.file
            }
        }),
{
    lemma_waiting_grows(p.state, b.columns, b.num_rows);
}

} // verus!
