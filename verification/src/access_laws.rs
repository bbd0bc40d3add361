//! Which parts of a file are read: those that hold the columns that are asked for, close ones
//! together.

use crate::error::Error;
use crate::image;
use crate::input;
use crate::input::MergedView;
use crate::layout::{GroupView, LayoutView};
use crate::reader;
use crate::row_group;
use crate::row_group::FileView;
use crate::schema;
use crate::schema::SchemaView;
use vstd::prelude::*;

verus! {

/// A bucket is read exactly where one of its columns is asked for.
pub proof fn lemma_needed(s: SchemaView, projected: Seq<bool>, b: nat)
    requires
        s.columns.len() <= usize::MAX,
        projected.len() == s.columns.len(),
    ensures
        row_group::is_needed(s, projected, b as int) <==> exists|c: int|
            0 <= c < s.columns.len() && (#[trigger] s.columns[c]).bucket_id == b && projected[c],
        row_group::is_whole(s, projected, b as int) <==> {
            &&& exists|c: int| 0 <= c < s.columns.len() && (#[trigger] s.columns[c]).bucket_id == b
            &&& forall|c: int|
                0 <= c < s.columns.len() && (#[trigger] s.columns[c]).bucket_id == b ==> projected[c]
        },
{
    let list = image::bucket_members(s, b as int);
    schema::lemma_members(s.columns, b, s.columns.len());
    assert forall|c: int|
        0 <= c < s.columns.len() && (#[trigger] s.columns[c]).bucket_id == b implies exists|k: int|
        0 <= k < list.len() && #[trigger] list[k] == c as usize by {
        assert(list.contains(c as usize));
    }
    assert forall|k: int| 0 <= k < list.len() implies 0 <= #[trigger] list[k] < s.columns.len()
        && s.columns[list[k] as int].bucket_id == b by {}
}

/// The size of a bucket's list of sizes is four bytes for each of its columns.
pub proof fn lemma_directory(s: SchemaView, b: nat)
    requires
        s.columns.len() <= usize::MAX,
    ensures
        row_group::directory_size(s, b as int) == 4 * schema::members(
            s.columns,
            b,
            s.columns.len(),
        ).len(),
{
}

/// How many bytes of a bucket are read first: none where no column of it is asked for, only
/// the list of sizes where its columns are stored one by one and not all are asked for, and
/// else all.
pub proof fn lemma_first_size(s: SchemaView, g: GroupView, projected: Seq<bool>, b: nat)
    requires
        s.columns.len() <= usize::MAX,
    ensures
        row_group::first_round_size(s, g, projected, b as int) == if !row_group::is_needed(
            s,
            projected,
            b as int,
        ) {
            0
        } else {
            match g.layouts[b as int] {
                LayoutView::Empty => 0,
                LayoutView::Monolithic { compressed_size, .. } => compressed_size as int,
                LayoutView::Paged { total_size } => if row_group::is_whole(
                    s,
                    projected,
                    b as int,
                ) {
                    total_size as int
                } else {
                    row_group::directory_size(s, b as int)
                },
            }
        },
{
}

/// Nothing is read first but parts of buckets with a column that is asked for.
pub proof fn lemma_only_needed(s: SchemaView, g: GroupView, projected: Seq<bool>, n: nat, i: int)
    requires
        0 <= i < row_group::first_ranges(s, g, projected, n).len(),
    ensures
        exists|b: int|
            0 <= b < n && #[trigger] row_group::is_needed(s, projected, b) && !(g.layouts[b] is Empty)
                && row_group::first_ranges(s, g, projected, n)[i] == (
                g.offsets[b],
                row_group::first_round_size(s, g, projected, b) as usize,
            ),
    decreases n,
{
    if n > 0 {
        let m = (n - 1) as nat;
        let before = row_group::first_ranges(s, g, projected, m);
        if i < before.len() {
            lemma_only_needed(s, g, projected, m, i);
        } else {
            assert(row_group::is_needed(s, projected, m as int));
        }
    }
}

/// Every bucket that is stored and has a column that is asked for is read.
pub proof fn lemma_all_needed(s: SchemaView, g: GroupView, projected: Seq<bool>, n: nat, b: int)
    requires
        0 <= b < n,
        row_group::is_needed(s, projected, b),
        !(g.layouts[b] is Empty),
    ensures
        row_group::first_ranges(s, g, projected, n).contains(
            (g.offsets[b], row_group::first_round_size(s, g, projected, b) as usize),
        ),
    decreases n,
{
    let m = (n - 1) as nat;
    let before = row_group::first_ranges(s, g, projected, m);
    let now = row_group::first_ranges(s, g, projected, n);
    let r = (g.offsets[b], row_group::first_round_size(s, g, projected, b) as usize);
    if b < m {
        lemma_all_needed(s, g, projected, m, b);
        let i = choose|i: int| 0 <= i < before.len() && before[i] == r;
        assert(now[i] == r);
    } else {
        assert(now[before.len() as int] == r);
    }
}

/// Of columns that are stored one by one, only those that are asked for and have values are
/// read, each where the sizes before it end.
pub proof fn lemma_slots_read(offset: int, sizes: Seq<nat>, want: Seq<bool>, k: nat)
    ensures
        row_group::slot_ranges(offset, sizes, want, 0).len() == 0,
        row_group::slot_ranges(offset, sizes, want, k + 1) == if want[k as int] && sizes[k as int]
            > 0 {
            row_group::slot_ranges(offset, sizes, want, k).push(
                (
                    (offset + 4 * sizes.len() + row_group::slots_size(sizes, k)) as u64,
                    sizes[k as int] as usize,
                ),
            )
        } else {
            row_group::slot_ranges(offset, sizes, want, k)
        },
        row_group::slots_size(sizes, 0) == 0,
        row_group::slots_size(sizes, k + 1) == row_group::slots_size(sizes, k) + sizes[k as int],
{
}

/// A range is read together with those before it where it starts at most a mebibyte behind
/// them and all of them span at most 32 mebibytes.
pub proof fn lemma_when_joined(last: MergedView, start: int, end: int)
    requires
        last.start <= start,
    ensures
        input::joins(last, start, end) <==> start - last.end <= 1_048_576 && end - last.start
            <= 33_554_432,
{
}

/// What a range that comes next does to those that were merged: it is joined to the last of
/// them, which then reaches at least to its end, or it starts one of its own.
pub proof fn lemma_merge_step(ranges: Seq<(u64, usize)>, order: Seq<usize>, k: nat)
    requires
        k < order.len(),
    ensures
        ({
            let before = input::merged(ranges, order, k);
            let now = input::merged(ranges, order, k + 1);
            let i = order[k as int];
            let start = ranges[i as int].0 as int;
            let end = start + ranges[i as int].1;
            &&& input::merged(ranges, order, 0).len() == 0
            &&& if before.len() > 0 && input::joins(before.last(), start, end) {
                &&& now.len() == before.len()
                &&& now.drop_last() == before.drop_last()
                &&& now.last().start == before.last().start
                &&& now.last().end >= end
                &&& now.last().end >= before.last().end
                &&& now.last().end == end || now.last().end == before.last().end
                &&& now.last().members == before.last().members.push(i)
            } else {
                &&& now.len() == before.len() + 1
                &&& now.drop_last() == before
                &&& now.last().start == start
                &&& now.last().end == end
                &&& now.last().members == seq![i]
            }
        }),
{
    let before = input::merged(ranges, order, k);
    let now = input::merged(ranges, order, k + 1);
    if now.len() == before.len() {
        assert(now.drop_last() =~= before.drop_last());
    } else {
        assert(now.drop_last() =~= before);
    }
}

/// Ranges of which one starts where the one before it ends become one.
pub proof fn lemma_adjacent_step(ranges: Seq<(u64, usize)>, k: nat)
    requires
        k < ranges.len(),
    ensures
        ({
            let before = input::joined(ranges, k);
            let now = input::joined(ranges, k + 1);
            let r = ranges[k as int];
            &&& input::joined(ranges, 0).len() == 0
            &&& if before.len() > 0 && before.last().0 + before.last().1 == r.0 && before.last().1
                + r.1 <= usize::MAX {
                &&& now.len() == before.len()
                &&& now.drop_last() == before.drop_last()
                &&& now.last().0 == before.last().0
                &&& now.last().1 == before.last().1 + r.1
            } else {
                now == before.push(r)
            }
        }),
{
    let before = input::joined(ranges, k);
    let now = input::joined(ranges, k + 1);
    if now.len() == before.len() {
        assert(now.drop_last() =~= before.drop_last());
    }
}

/// The end of a file is read first: its last 64 kibibytes, or all of a shorter one.
pub proof fn lemma_tail(file_len: int)
    requires
        file_len >= 0,
    ensures
        file_len <= 65_536 ==> reader::tail_size(file_len) == file_len,
        file_len > 65_536 ==> reader::tail_size(file_len) == 65_536,
{
}

/// Columns that are stored one by one are read only from a compressed file and where the list
/// of their sizes fits.
pub proof fn lemma_paged_refused(f: FileView, g: GroupView, projected: Seq<bool>, b: int)
    ensures
        ({
            let e = row_group::layout_error(f, g, projected, b);
            &&& !row_group::is_needed(f.schema, projected, b) ==> e is None
            &&& !(g.layouts[b] is Paged) ==> e is None
            &&& row_group::is_needed(f.schema, projected, b) && g.layouts[b] is Paged ==> e
                == if f.compression != 1 {
                Some(Error::PagedNeedsZstd)
            } else if row_group::directory_size(f.schema, b) > g.layouts[b]->total_size {
                Some(Error::PagedDirectorySize)
            } else {
                None
            }
        }),
{
}

} // verus!
