//! Reads ranges of files.

use crate::bytes;
use crate::error::{Error, ErrorKind, Fault};
use std::sync::Arc;
use vstd::prelude::*;

verus! {

/// Ranges no further apart than this are read together.
pub const COALESCE_GAP: u64 = 1_048_576;

/// Ranges are read together as long as they span no more than this.
pub const COALESCE_MAX_RANGE: u64 = 33_554_432;

/// A part of a buffer that other parts share.
pub struct ReadRangeBuffer {
    pub data: Arc<Vec<u8>>,
    pub start: usize,
    pub len: usize,
}

impl ReadRangeBuffer {
    /// The part lies within the buffer.
    pub open spec fn well_formed(&self) -> bool {
        self.start + self.len <= self.data@.len()
    }

    /// The bytes of the part.
    pub open spec fn bytes(&self) -> Seq<u8> {
        self.data@.subrange(self.start as int, self.start + self.len)
    }

    /// The part of `data` that starts at `start` and has `len` bytes.
    pub fn new(data: Arc<Vec<u8>>, start: usize, len: usize) -> (r: Result<ReadRangeBuffer, Error>)
        ensures
            match r {
                Ok(b) => start + len <= data@.len() && b.well_formed() && b.bytes()
                    == data@.subrange(start as int, start + len) && b.data == data,
                Err(e) => start + len > data@.len() && e == Error::RangeOutOfBounds,
            },
    {
        let size: usize = data.len();
        if start > size || len > size - start {
            return Err(Error::RangeOutOfBounds);
        }
        Ok(ReadRangeBuffer { data, start, len })
    }

    /// The bytes of the part.
    pub fn as_slice(&self) -> (s: &[u8])
        requires
            self.well_formed(),
        ensures
            s@ == self.bytes(),
    {
        let all: &[u8] = self.data.as_slice();
        assert(all.len() == self.data@.len());
        vstd::slice::slice_subrange(all, self.start, self.start + self.len)
    }
}

/// Ranges that are read together.
pub struct MergedRange {
    pub start: u64,
    pub end: u64,
    /// The places of the ranges in the list that was asked for.
    pub members: Vec<usize>,
}

/// The mathematical content of a [`MergedRange`].
#[verifier::ext_equal]
pub struct MergedView {
    pub start: int,
    pub end: int,
    pub members: Seq<usize>,
}

impl View for MergedRange {
    type V = MergedView;

    open spec fn view(&self) -> MergedView {
        MergedView { start: self.start as int, end: self.end as int, members: self.members@ }
    }
}

/// The contents of a list of merged ranges.
pub open spec fn merged_views(v: Seq<MergedRange>) -> Seq<MergedView> {
    Seq::new(v.len(), |i: int| v[i]@)
}

/// Ranges that end within 64 bits.
pub open spec fn bounded(ranges: Seq<(u64, usize)>) -> bool {
    forall|i: int| 0 <= i < ranges.len() ==> (#[trigger] ranges[i]).0 + ranges[i].1 <= u64::MAX
}

/// Ranges that end within the first `limit` bytes.
pub open spec fn lie_in(ranges: Seq<(u64, usize)>, limit: int) -> bool {
    forall|i: int| 0 <= i < ranges.len() ==> (#[trigger] ranges[i]).0 + ranges[i].1 <= limit
}

/// Whether range `a` comes before range `b`: by where they start, and then by
/// their places in the list.
pub open spec fn precedes(ranges: Seq<(u64, usize)>, a: usize, b: usize) -> bool {
    ranges[a as int].0 < ranges[b as int].0 || (ranges[a as int].0 == ranges[b as int].0 && a < b)
}

/// The first `n` ranges in order.
pub open spec fn is_order(ranges: Seq<(u64, usize)>, n: int, order: Seq<usize>) -> bool {
    &&& order.len() == n
    &&& forall|j: int| 0 <= j < n ==> 0 <= #[trigger] order[j] < n
    &&& forall|i: int| 0 <= i < n ==> #[trigger] order.contains(i as usize)
    &&& forall|j: int, k: int|
        0 <= j < k < n ==> precedes(ranges, #[trigger] order[j], #[trigger] order[k])
}

/// Whether a range is read together with those before it.
pub open spec fn joins(last: MergedView, start: int, end: int) -> bool {
    start >= last.start && start - last.end <= COALESCE_GAP && end - last.start
        <= COALESCE_MAX_RANGE
}

/// The first `k` ranges in order, merged.
pub open spec fn merged(ranges: Seq<(u64, usize)>, order: Seq<usize>, k: nat) -> Seq<MergedView>
    decreases k,
{
    if k == 0 {
        Seq::empty()
    } else {
        let before = merged(ranges, order, (k - 1) as nat);
        let i = order[k - 1];
        let start = ranges[i as int].0 as int;
        let end = start + ranges[i as int].1;
        if before.len() > 0 && joins(before.last(), start, end) {
            let last = before.last();
            before.update(
                before.len() - 1,
                MergedView {
                    start: last.start,
                    end: if end > last.end {
                        end
                    } else {
                        last.end
                    },
                    members: last.members.push(i),
                },
            )
        } else {
            before.push(MergedView { start, end, members: seq![i] })
        }
    }
}

/// Whether a merged range holds range `i`.
pub open spec fn holds(m: MergedView, ranges: Seq<(u64, usize)>, i: usize) -> bool {
    &&& i < ranges.len()
    &&& m.start <= ranges[i as int].0
    &&& ranges[i as int].0 + ranges[i as int].1 <= m.end
}

/// Whether merged ranges hold all their members.
pub open spec fn sound(ms: Seq<MergedView>, ranges: Seq<(u64, usize)>) -> bool {
    forall|m: int, j: int|
        0 <= m < ms.len() && 0 <= j < ms[m].members.len() ==> holds(
            ms[m],
            ranges,
            #[trigger] ms[m].members[j],
        )
}

/// Whether range `i` is a member of one of the merged ranges.
pub open spec fn found(ms: Seq<MergedView>, i: usize) -> bool {
    exists|m: int, j: int|
        0 <= m < ms.len() && 0 <= j < ms[m].members.len() && #[trigger] ms[m].members[j] == i
}

/// A plan for reading ranges: each is a member of a merged range that holds it.
pub open spec fn is_plan(ranges: Seq<(u64, usize)>, ms: Seq<MergedView>) -> bool {
    &&& sound(ms, ranges)
    &&& forall|i: int| 0 <= i < ranges.len() ==> #[trigger] found(ms, i as usize)
}

/// Merging keeps every range within the merged range that has it as a member.
pub proof fn lemma_merged(ranges: Seq<(u64, usize)>, order: Seq<usize>, k: nat)
    requires
        is_order(ranges, ranges.len() as int, order),
        k <= ranges.len(),
        bounded(ranges),
    ensures
        sound(merged(ranges, order, k), ranges),
        forall|j: int| 0 <= j < k ==> found(merged(ranges, order, k), #[trigger] order[j]),
        forall|m: int|
            0 <= m < merged(ranges, order, k).len() ==> 0 <= (#[trigger] merged(
                ranges,
                order,
                k,
            )[m]).start <= merged(ranges, order, k)[m].end <= u64::MAX,
    decreases k,
{
    if k > 0 {
        lemma_merged(ranges, order, (k - 1) as nat);
        let before = merged(ranges, order, (k - 1) as nat);
        let now = merged(ranges, order, k);
        let i = order[k - 1];
        let start = ranges[i as int].0 as int;
        let end = start + ranges[i as int].1;
        let joined = before.len() > 0 && joins(before.last(), start, end);
        let last = now.len() - 1;
        assert(now[last].members[now[last].members.len() - 1] == i);
        assert forall|m: int, j: int|
            0 <= m < now.len() && 0 <= j < now[m].members.len() implies holds(
            now[m],
            ranges,
            #[trigger] now[m].members[j],
        ) by {
            if m < last || (joined && j < before[m].members.len()) {
                assert(now[m].members[j] == before[m].members[j]);
                assert(holds(before[m], ranges, before[m].members[j]));
            }
        }
        assert forall|j: int| 0 <= j < k implies found(now, #[trigger] order[j]) by {
            if j < k - 1 {
                assert(found(before, order[j]));
                let (m, x) = choose|m: int, x: int|
                    0 <= m < before.len() && 0 <= x < before[m].members.len()
                        && #[trigger] before[m].members[x] == order[j];
                assert(now[m].members[x] == order[j]);
            }
        }
        assert forall|m: int| 0 <= m < now.len() implies 0 <= (#[trigger] now[m]).start
            <= now[m].end <= u64::MAX by {
            if m < before.len() {
                assert(0 <= before[m].start <= before[m].end <= u64::MAX);
            }
        }
    }
}

/// Merged ranges are short enough for memory to be asked for, and end where one of
/// their members ends.
pub proof fn lemma_merged_in(
    ranges: Seq<(u64, usize)>,
    order: Seq<usize>,
    k: nat,
    limit: int,
)
    requires
        is_order(ranges, ranges.len() as int, order),
        k <= ranges.len(),
    ensures
        forall|m: int|
            0 <= m < merged(ranges, order, k).len() ==> (#[trigger] merged(
                ranges,
                order,
                k,
            )[m]).end - merged(ranges, order, k)[m].start <= usize::MAX,
        lie_in(ranges, limit) ==> forall|m: int|
            0 <= m < merged(ranges, order, k).len() ==> (#[trigger] merged(
                ranges,
                order,
                k,
            )[m]).end <= limit,
    decreases k,
{
    if k > 0 {
        lemma_merged_in(ranges, order, (k - 1) as nat, limit);
        let before = merged(ranges, order, (k - 1) as nat);
        let now = merged(ranges, order, k);
        let i = order[k - 1];
        assert forall|m: int| 0 <= m < now.len() implies (#[trigger] now[m]).end - now[m].start
            <= usize::MAX && (lie_in(ranges, limit) ==> now[m].end <= limit) by {
            if m < before.len() {
                assert(before[m].end - before[m].start <= usize::MAX);
            }
            assert(lie_in(ranges, limit) ==> ranges[i as int].0 + ranges[i as int].1 <= limit);
        }
    }
}

/// The places from `lo` to `hi` in order.
spec fn is_part(ranges: Seq<(u64, usize)>, lo: int, hi: int, order: Seq<usize>) -> bool {
    &&& order.len() == hi - lo
    &&& forall|j: int| 0 <= j < order.len() ==> lo <= #[trigger] order[j] < hi
    &&& forall|i: int| lo <= i < hi ==> #[trigger] order.contains(i as usize)
    &&& forall|j: int, k: int|
        0 <= j < k < order.len() ==> precedes(ranges, #[trigger] order[j], #[trigger] order[k])
}

/// Whether all of the first places come before all of the others from `i` on.
spec fn is_behind(ranges: Seq<(u64, usize)>, first: Seq<usize>, rest: Seq<usize>, i: int) -> bool {
    forall|j: int, k: int|
        0 <= j < first.len() && i <= k < rest.len() ==> precedes(
            ranges,
            #[trigger] first[j],
            #[trigger] rest[k],
        )
}

/// Merges the places of two neighbouring parts.
fn merge_parts(
    ranges: &[(u64, usize)],
    left: &Vec<usize>,
    right: &Vec<usize>,
    Ghost(lo): Ghost<int>,
    Ghost(mid): Ghost<int>,
    Ghost(hi): Ghost<int>,
) -> (order: Vec<usize>)
    requires
        0 <= lo <= mid <= hi <= ranges@.len(),
        is_part(ranges@, lo, mid, left@),
        is_part(ranges@, mid, hi, right@),
    ensures
        is_part(ranges@, lo, hi, order@),
{
    let mut order: Vec<usize> = Vec::with_capacity(left.len());
    let mut i: usize = 0;
    let mut j: usize = 0;
    while i < left.len() || j < right.len()
        invariant
            0 <= lo <= mid <= hi <= ranges@.len(),
            is_part(ranges@, lo, mid, left@),
            is_part(ranges@, mid, hi, right@),
            i <= left@.len(),
            j <= right@.len(),
            order@.len() == i + j,
            forall|k: int| 0 <= k < order@.len() ==> lo <= #[trigger] order@[k] < hi,
            forall|x: int| 0 <= x < i ==> order@.contains(#[trigger] left@[x]),
            forall|x: int| 0 <= x < j ==> order@.contains(#[trigger] right@[x]),
            forall|a: int, b: int|
                0 <= a < b < order@.len() ==> precedes(
                    ranges@,
                    #[trigger] order@[a],
                    #[trigger] order@[b],
                ),
            is_behind(ranges@, order@, left@, i as int),
            is_behind(ranges@, order@, right@, j as int),
        decreases left@.len() - i + right@.len() - j,
    {
        let take_left: bool = if i == left.len() {
            false
        } else if j == right.len() {
            true
        } else {
            ranges[left[i]].0 <= ranges[right[j]].0
        };
        let ghost before = order@;
        let next: usize = if take_left {
            left[i]
        } else {
            right[j]
        };
        order.push(next);
        proof {
            assert(order@[before.len() as int] == next);
            assert forall|x: usize| before.contains(x) implies #[trigger] order@.contains(x) by {
                let k = choose|k: int| 0 <= k < before.len() && before[k] == x;
                assert(order@[k] == x);
            }
            assert(order@.contains(next));
            let (i2, j2) = if take_left {
                (i + 1, j as int)
            } else {
                (i as int, j + 1)
            };
            assert(forall|k: int| i2 <= k < left@.len() ==> precedes(
                ranges@,
                next,
                #[trigger] left@[k],
            )) by {
                if !take_left && i < left@.len() {
                    assert(precedes(ranges@, next, left@[i as int]));
                }
            }
            assert(forall|k: int| j2 <= k < right@.len() ==> precedes(
                ranges@,
                next,
                #[trigger] right@[k],
            )) by {
                if take_left && j < right@.len() {
                    assert(precedes(ranges@, next, right@[j as int]));
                }
            }
        }
        if take_left {
            i = i + 1;
        } else {
            j = j + 1;
        }
    }
    proof {
        assert forall|x: int| lo <= x < hi implies #[trigger] order@.contains(x as usize) by {
            if x < mid {
                assert(left@.contains(x as usize));
                let k = choose|k: int| 0 <= k < left@.len() && left@[k] == x as usize;
                assert(order@.contains(left@[k]));
            } else {
                assert(right@.contains(x as usize));
                let k = choose|k: int| 0 <= k < right@.len() && right@[k] == x as usize;
                assert(order@.contains(right@[k]));
            }
        }
    }
    order
}

/// The places from `lo` to `hi` in order.
fn sort_part(ranges: &[(u64, usize)], lo: usize, hi: usize) -> (order: Vec<usize>)
    requires
        lo <= hi <= ranges@.len(),
    ensures
        is_part(ranges@, lo as int, hi as int, order@),
    decreases hi - lo,
{
    if hi - lo <= 1 {
        let mut order: Vec<usize> = Vec::new();
        if lo < hi {
            order.push(lo);
            assert(order@[0] == lo);
        }
        return order;
    }
    let mid: usize = lo + (hi - lo) / 2;
    let left: Vec<usize> = sort_part(ranges, lo, mid);
    let right: Vec<usize> = sort_part(ranges, mid, hi);
    merge_parts(ranges, &left, &right, Ghost(lo as int), Ghost(mid as int), Ghost(hi as int))
}

/// The places of the ranges in order.
fn sort_indices(ranges: &[(u64, usize)]) -> (order: Vec<usize>)
    ensures
        is_order(ranges@, ranges@.len() as int, order@),
{
    sort_part(ranges, 0, ranges.len())
}

/// Plans how to read ranges: those that are close to each other together.
pub fn plan_ranges(ranges: &[(u64, usize)]) -> (plan: Vec<MergedRange>)
    requires
        bounded(ranges@),
    ensures
        exists|order: Seq<usize>|
            #![trigger is_order(ranges@, ranges@.len() as int, order)]
            is_order(ranges@, ranges@.len() as int, order) && merged_views(plan@) == merged(
                ranges@,
                order,
                ranges@.len(),
            ),
        is_plan(ranges@, merged_views(plan@)),
        forall|m: int|
            0 <= m < plan@.len() ==> (#[trigger] plan@[m]).start <= plan@[m].end && plan@[m].end
                - plan@[m].start <= usize::MAX,
        forall|m: int, limit: int|
            0 <= m < plan@.len() && #[trigger] lie_in(ranges@, limit) ==> (#[trigger] plan@[m]).end
                <= limit,
        ranges@.len() == 0 ==> plan@.len() == 0,
{
    let order: Vec<usize> = sort_indices(ranges);
    let mut plan: Vec<MergedRange> = Vec::new();
    let mut k: usize = 0;
    assert(merged_views(plan@) =~= Seq::<MergedView>::empty());
    while k < order.len()
        invariant
            k <= order@.len(),
            is_order(ranges@, ranges@.len() as int, order@),
            bounded(ranges@),
            merged_views(plan@) == merged(ranges@, order@, k as nat),
        decreases order@.len() - k,
    {
        proof {
            lemma_merged(ranges@, order@, k as nat);
        }
        let ghost before = merged_views(plan@);
        let i: usize = order[k];
        let start: u64 = ranges[i].0;
        let end: u64 = start + ranges[i].1 as u64;
        let n: usize = plan.len();
        let joined: bool = if n > 0 {
            let last: &MergedRange = &plan[n - 1];
            assert(before[n - 1] == last@);
            start >= last.start && start.saturating_sub(last.end) <= COALESCE_GAP && end
                - last.start <= COALESCE_MAX_RANGE
        } else {
            false
        };
        if joined {
            if end > plan[n - 1].end {
                plan[n - 1].end = end;
            }
            plan[n - 1].members.push(i);
            proof {
                let now = merged(ranges@, order@, (k + 1) as nat);
                assert(merged_views(plan@)[n - 1] =~= now[n - 1]);
                assert(merged_views(plan@) =~= now);
            }
        } else {
            let mut members: Vec<usize> = Vec::new();
            members.push(i);
            plan.push(MergedRange { start, end, members });
            proof {
                let now = merged(ranges@, order@, (k + 1) as nat);
                assert(members@ =~= seq![i]);
                assert(merged_views(plan@) =~= now);
            }
        }
        k = k + 1;
    }
    proof {
        lemma_merged(ranges@, order@, ranges@.len());
        let ms = merged_views(plan@);
        assert forall|i: int| 0 <= i < ranges@.len() implies #[trigger] found(ms, i as usize) by {
            assert(order@.contains(i as usize));
            let j = choose|j: int| 0 <= j < order@.len() && order@[j] == i as usize;
            assert(found(ms, order@[j]));
        }
        lemma_merged_in(ranges@, order@, ranges@.len(), 0);
        assert forall|m: int| 0 <= m < plan@.len() implies (#[trigger] plan@[m]).start
            <= plan@[m].end && plan@[m].end - plan@[m].start <= usize::MAX by {
            assert(ms[m].start <= ms[m].end);
        }
        assert forall|m: int, limit: int|
            0 <= m < plan@.len() && #[trigger] lie_in(ranges@, limit) implies (
        #[trigger] plan@[m]).end <= limit by {
            lemma_merged_in(ranges@, order@, ranges@.len(), limit);
            assert(ms[m].end <= limit);
        }
    }
    plan
}


/// Whether a buffer is what a merged range holds of a file.
pub open spec fn is_read(contents: Seq<u8>, m: MergedRange, buf: Arc<Vec<u8>>) -> bool {
    &&& m.start <= m.end <= contents.len()
    &&& buf@ == contents.subrange(m.start as int, m.end as int)
}

/// Whether the buffers are as long as the merged ranges of a plan.
pub open spec fn is_fetched(plan: Seq<MergedRange>, fetched: Seq<Arc<Vec<u8>>>) -> bool {
    &&& fetched.len() == plan.len()
    &&& forall|m: int|
        0 <= m < plan.len() ==> plan[m].start <= plan[m].end && (#[trigger] fetched[m])@.len()
            == plan[m].end - plan[m].start
}

/// Whether a buffer is the part of what was fetched that range `i` asks for.
pub open spec fn is_share(
    ranges: Seq<(u64, usize)>,
    plan: Seq<MergedRange>,
    fetched: Seq<Arc<Vec<u8>>>,
    m: int,
    i: int,
    b: ReadRangeBuffer,
) -> bool {
    let start = ranges[i].0 - plan[m].start;
    &&& 0 <= m < plan.len()
    &&& b.data == fetched[m]
    &&& b.well_formed()
    &&& 0 <= start
    &&& start + ranges[i].1 <= fetched[m]@.len()
    &&& b.bytes() == fetched[m]@.subrange(start, start + ranges[i].1)
}

/// Whether a buffer is what range `i` asks for.
pub open spec fn is_served(
    ranges: Seq<(u64, usize)>,
    plan: Seq<MergedRange>,
    fetched: Seq<Arc<Vec<u8>>>,
    i: int,
    b: ReadRangeBuffer,
) -> bool {
    exists|m: int| is_share(ranges, plan, fetched, m, i, b)
}

/// Hands each range its part of what was fetched.
pub fn distribute_ranges(
    ranges: &[(u64, usize)],
    plan: &Vec<MergedRange>,
    fetched: &Vec<Arc<Vec<u8>>>,
) -> (r: Vec<ReadRangeBuffer>)
    requires
        bounded(ranges@),
        is_plan(ranges@, merged_views(plan@)),
        is_fetched(plan@, fetched@),
    ensures
        r@.len() == ranges@.len(),
        forall|i: int|
            0 <= i < ranges@.len() ==> is_served(ranges@, plan@, fetched@, i, #[trigger] r@[i]),
{
    let ghost ms = merged_views(plan@);
    let n: usize = ranges.len();
    let mut r: Vec<ReadRangeBuffer> = Vec::new();
    let empty: Arc<Vec<u8>> = Arc::new(Vec::new());
    let mut i: usize = 0;
    while i < n
        invariant
            i <= n,
            r@.len() == i,
        decreases n - i,
    {
        r.push(ReadRangeBuffer { data: empty.clone(), start: 0, len: 0 });
        i = i + 1;
    }
    let mut m: usize = 0;
    while m < plan.len()
        invariant
            m <= plan@.len(),
            n == ranges@.len(),
            r@.len() == n,
            ms == merged_views(plan@),
            bounded(ranges@),
            sound(ms, ranges@),
            is_fetched(plan@, fetched@),
            forall|i: int|
                0 <= i < n && found(ms.take(m as int), i as usize) ==> is_served(
                    ranges@,
                    plan@,
                    fetched@,
                    i,
                    #[trigger] r@[i],
                ),
        decreases plan@.len() - m,
    {
        let range: &MergedRange = &plan[m];
        assert(ms[m as int] == range@);
        let mut j: usize = 0;
        while j < range.members.len()
            invariant
                j <= range.members@.len(),
                m < plan@.len(),
                range == plan@[m as int],
                n == ranges@.len(),
                r@.len() == n,
                ms == merged_views(plan@),
                ms[m as int] == range@,
                bounded(ranges@),
                sound(ms, ranges@),
                is_fetched(plan@, fetched@),
                forall|i: int|
                    0 <= i < n && found(ms.take(m as int), i as usize) ==> is_served(
                        ranges@,
                        plan@,
                        fetched@,
                        i,
                        #[trigger] r@[i],
                    ),
                forall|x: int|
                    0 <= x < j ==> is_served(
                            ranges@,
                            plan@,
                            fetched@,
                            (#[trigger] range.members@[x]) as int,
                            r@[range.members@[x] as int],
                        ),
            decreases range.members@.len() - j,
        {
            let i: usize = range.members[j];
            assert(holds(ms[m as int], ranges@, ms[m as int].members[j as int]));
            let start: u64 = ranges[i].0 - range.start;
            let len: usize = ranges[i].1;
            let ghost before = r@;
            assert(fetched@[m as int]@.len() == range.end - range.start);
            assert(fetched[m as int].len() == fetched@[m as int]@.len());
            let b: ReadRangeBuffer = ReadRangeBuffer {
                data: fetched[m].clone(),
                start: start as usize,
                len,
            };
            r.set(i, b);
            proof {
                assert(is_share(ranges@, plan@, fetched@, m as int, i as int, r@[i as int]));
                assert(is_served(ranges@, plan@, fetched@, i as int, r@[i as int]));
            }
            j = j + 1;
        }
        proof {
            assert forall|i: int| 0 <= i < n && found(ms.take(m + 1), i as usize) implies is_served(
                ranges@,
                plan@,
                fetched@,
                i,
                #[trigger] r@[i],
            ) by {
                let (x, y) = choose|x: int, y: int|
                    0 <= x < m + 1 && 0 <= y < ms.take(m + 1)[x].members.len()
                        && #[trigger] ms.take(m + 1)[x].members[y] == i as usize;
                if x < m {
                    assert(ms.take(m as int)[x].members[y] == i as usize);
                    assert(found(ms.take(m as int), i as usize));
                } else {
                    assert(range.members@[y] == i as usize);
                }
            }
        }
        m = m + 1;
    }
    proof {
        assert(ms.take(m as int) =~= ms);
        assert(forall|i: int| 0 <= i < n ==> #[trigger] found(ms, i as usize));
    }
    r
}

/// A file to read from.
pub trait InputFile {
    /// The bytes of the file. Nothing is known of them unless an implementation says
    /// what they are.
    open spec fn contents(&self) -> Seq<u8> {
        arbitrary::<spec_fn(&Self) -> Seq<u8>>()(self)
    }

    /// Whether reading bytes of the file never fails.
    open spec fn dependable(&self) -> bool {
        false
    }

    /// The errors that reading the file may fail with.
    open spec fn failures(&self) -> Set<Error> {
        arbitrary::<spec_fn(&Self) -> Set<Error>>()(self)
    }

    /// Fills `buf` with the bytes from `offset` on.
    fn read_at(&self, offset: u64, buf: &mut [u8]) -> (r: Result<(), Error>)
        ensures
            final(buf)@.len() == old(buf)@.len(),
            match r {
                Ok(()) => offset + old(buf)@.len() <= self.contents().len() && final(buf)@
                    == self.contents().subrange(offset as int, offset + old(buf)@.len()),
                Err(e) => e is Io && self.failures().contains(e),
            },
            self.dependable() && offset + old(buf)@.len() <= self.contents().len() ==> r is Ok,
    ;

    /// Reads ranges, each given by its start and its length. Parts of the buffers that
    /// come back may be shared.
    fn read_ranges_shared(&self, ranges: &[(u64, usize)]) -> (r: Result<
        Vec<ReadRangeBuffer>,
        Error,
    >)
        requires
            bounded(ranges@),
        ensures
            match r {
                Ok(bufs) => {
                    &&& bufs@.len() == ranges@.len()
                    &&& forall|i: int|
                        0 <= i < ranges@.len() ==> {
                            &&& (#[trigger] bufs@[i]).well_formed()
                            &&& bytes::has_at(
                                self.contents(),
                                ranges@[i].0 as int,
                                bufs@[i].bytes(),
                            )
                            &&& bufs@[i].bytes().len() == ranges@[i].1
                        }
                },
                Err(e) => e is Io && self.failures().contains(e),
            },
            ranges@.len() == 0 ==> r is Ok,
            self.dependable() && lie_in(ranges@, self.contents().len() as int) ==> r is Ok,
    {
        let plan: Vec<MergedRange> = plan_ranges(ranges);
        let mut fetched: Vec<Arc<Vec<u8>>> = Vec::new();
        let mut m: usize = 0;
        while m < plan.len()
            invariant
                m <= plan@.len(),
                forall|k: int|
                    0 <= k < plan@.len() ==> (#[trigger] plan@[k]).start <= plan@[k].end
                        && plan@[k].end - plan@[k].start <= usize::MAX,
                forall|k: int|
                    0 <= k < plan@.len() && lie_in(ranges@, self.contents().len() as int)
                        ==> (#[trigger] plan@[k]).end <= self.contents().len(),
                ranges@.len() == 0 ==> plan@.len() == 0,
                fetched@.len() == m,
                forall|k: int|
                    0 <= k < m ==> is_read(self.contents(), plan@[k], #[trigger] fetched@[k]),
            decreases plan@.len() - m,
        {
            let len: u64 = plan[m].end - plan[m].start;
            let mut buf: Vec<u8> = vec![0;len as usize];
            match self.read_at(plan[m].start, buf.as_mut_slice()) {
                Err(e) => {
                    return Err(e);
                },
                Ok(()) => {},
            }
            let part: Arc<Vec<u8>> = Arc::new(buf);
            assert(is_read(self.contents(), plan@[m as int], part));
            fetched.push(part);
            m = m + 1;
        }
        let r: Vec<ReadRangeBuffer> = distribute_ranges(ranges, &plan, &fetched);
        proof {
            assert forall|i: int| 0 <= i < ranges@.len() implies {
                &&& (#[trigger] r@[i]).well_formed()
                &&& bytes::has_at(self.contents(), ranges@[i].0 as int, r@[i].bytes())
                &&& r@[i].bytes().len() == ranges@[i].1
            } by {
                assert(is_served(ranges@, plan@, fetched@, i, r@[i]));
                let m = choose|m: int| is_share(ranges@, plan@, fetched@, m, i, r@[i]);
                let p = ranges@[i].0 as int;
                let len = ranges@[i].1 as int;
                let whole = fetched@[m]@;
                assert(is_read(self.contents(), plan@[m], fetched@[m]));
                assert(self.contents().subrange(p, p + len) =~= r@[i].bytes());
            }
        }
        Ok(r)
    }

    /// Reads ranges, each given by its start and its length.
    fn read_ranges(&self, ranges: &[(u64, usize)]) -> (r: Result<Vec<Vec<u8>>, Error>)
        requires
            bounded(ranges@),
        ensures
            match r {
                Ok(bufs) => {
                    &&& bufs@.len() == ranges@.len()
                    &&& forall|i: int|
                        0 <= i < ranges@.len() ==> bytes::has_at(
                            self.contents(),
                            ranges@[i].0 as int,
                            (#[trigger] bufs@[i])@,
                        ) && bufs@[i]@.len() == ranges@[i].1
                },
                Err(e) => e is Io && self.failures().contains(e),
            },
            ranges@.len() == 0 ==> r is Ok,
            self.dependable() && lie_in(ranges@, self.contents().len() as int) ==> r is Ok,
    {
        let shared: Vec<ReadRangeBuffer> = match self.read_ranges_shared(ranges) {
            Err(e) => {
                return Err(e);
            },
            Ok(v) => v,
        };
        let mut bufs: Vec<Vec<u8>> = Vec::new();
        let mut i: usize = 0;
        while i < shared.len()
            invariant
                i <= shared@.len() == ranges@.len(),
                forall|j: int|
                    0 <= j < ranges@.len() ==> {
                        &&& (#[trigger] shared@[j]).well_formed()
                        &&& bytes::has_at(
                            self.contents(),
                            ranges@[j].0 as int,
                            shared@[j].bytes(),
                        )
                        &&& shared@[j].bytes().len() == ranges@[j].1
                    },
                bufs@.len() == i,
                forall|j: int| 0 <= j < i ==> (#[trigger] bufs@[j])@ == shared@[j].bytes(),
            decreases shared@.len() - i,
        {
            let part: &[u8] = shared[i].as_slice();
            let buf: Vec<u8> = bytes::copy_range(part, 0, part.len());
            assert(buf@ =~= shared@[i as int].bytes());
            bufs.push(buf);
            i = i + 1;
        }
        proof {
            assert forall|j: int| 0 <= j < ranges@.len() implies bytes::has_at(
                self.contents(),
                ranges@[j].0 as int,
                (#[trigger] bufs@[j])@,
            ) && bufs@[j]@.len() == ranges@[j].1 by {
                assert(shared@[j].well_formed());
            }
        }
        Ok(bufs)
    }
}

/// Reads `len` bytes from `offset` on.
pub fn read_range<I: InputFile + ?Sized>(input: &I, offset: u64, len: usize) -> (r: Result<
    Vec<u8>,
    Error,
>)
    ensures
        match r {
            Ok(buf) => offset + len <= input.contents().len() && buf@
                == input.contents().subrange(offset as int, offset + len),
            Err(e) => e is Io && input.failures().contains(e),
        },
        input.dependable() && offset + len <= input.contents().len() ==> r is Ok,
{
    let mut buf: Vec<u8> = vec![0;len];
    match input.read_at(offset, buf.as_mut_slice()) {
        Err(e) => Err(e),
        Ok(()) => Ok(buf),
    }
}

/// A file in memory.
pub struct MemoryInput {
    pub data: Vec<u8>,
}

impl InputFile for MemoryInput {
    open spec fn contents(&self) -> Seq<u8> {
        self.data@
    }

    open spec fn dependable(&self) -> bool {
        true
    }

    open spec fn failures(&self) -> Set<Error> {
        set![Error::Io(Fault { kind: ErrorKind::UnexpectedEof, code: 0 })]
    }

    fn read_at(&self, offset: u64, buf: &mut [u8]) -> (r: Result<(), Error>)
        ensures
            r is Ok <==> offset + old(buf)@.len() <= self.data@.len(),
    {
        let n: usize = buf.len();
        if offset > self.data.len() as u64 || n > self.data.len() - offset as usize {
            return Err(Error::Io(Fault { kind: ErrorKind::UnexpectedEof, code: 0 }));
        }
        let start: usize = offset as usize;
        let size: usize = self.data.len();
        let mut i: usize = 0;
        while i < n
            invariant
                i <= n == buf@.len(),
                size == self.data@.len(),
                n == old(buf)@.len(),
                start + n <= self.data@.len(),
                forall|j: int| 0 <= j < i ==> #[trigger] buf@[j] == self.data@[start + j],
            decreases n - i,
        {
            buf[i] = self.data[start + i];
            i = i + 1;
        }
        assert(buf@ =~= self.data@.subrange(start as int, start + n));
        Ok(())
    }
}


/// The first `k` ranges, where a range that starts where the one before it ends is
/// joined to it.
pub open spec fn joined(ranges: Seq<(u64, usize)>, k: nat) -> Seq<(u64, usize)>
    decreases k,
{
    if k == 0 {
        Seq::empty()
    } else {
        let before = joined(ranges, (k - 1) as nat);
        let range = ranges[k - 1];
        if before.len() > 0 && before.last().0 + before.last().1 == range.0 && before.last().1
            + range.1 <= usize::MAX {
            before.update(
                before.len() - 1,
                (before.last().0, (before.last().1 + range.1) as usize),
            )
        } else {
            before.push(range)
        }
    }
}

/// Whether one range lies within another.
pub open spec fn lies_within(inner: (u64, usize), outer: (u64, usize)) -> bool {
    outer.0 <= inner.0 && inner.0 + inner.1 <= outer.0 + outer.1
}

/// Joined ranges end where one of the ranges ends.
pub proof fn lemma_joined_in(ranges: Seq<(u64, usize)>, k: nat, limit: int)
    requires
        k <= ranges.len(),
        lie_in(ranges, limit),
    ensures
        lie_in(joined(ranges, k), limit),
    decreases k,
{
    if k > 0 {
        lemma_joined_in(ranges, (k - 1) as nat, limit);
        let before = joined(ranges, (k - 1) as nat);
        let now = joined(ranges, k);
        let range = ranges[k - 1];
        assert(range.0 + range.1 <= limit);
        assert forall|i: int| 0 <= i < now.len() implies (#[trigger] now[i]).0 + now[i].1
            <= limit by {
            if i < before.len() {
                assert(before[i].0 + before[i].1 <= limit);
            }
        }
    }
}

/// Joins adjacent ranges. Returns the joined ranges, and for each range the place of
/// the one that it is part of.
pub fn join_adjacent(ranges: &Vec<(u64, usize)>) -> (r: (Vec<(u64, usize)>, Vec<usize>))
    requires
        bounded(ranges@),
    ensures
        r.0@ == joined(ranges@, ranges@.len()),
        bounded(r.0@),
        r.1@.len() == ranges@.len(),
        forall|j: int|
            0 <= j < ranges@.len() ==> #[trigger] r.1@[j] < r.0@.len() && lies_within(
                ranges@[j],
                r.0@[r.1@[j] as int],
            ),
{
    let mut out: Vec<(u64, usize)> = Vec::new();
    let mut homes: Vec<usize> = Vec::new();
    let mut k: usize = 0;
    while k < ranges.len()
        invariant
            k <= ranges@.len(),
            bounded(ranges@),
            out@ == joined(ranges@, k as nat),
            bounded(out@),
            homes@.len() == k,
            forall|j: int|
                0 <= j < k ==> #[trigger] homes@[j] < out@.len() && lies_within(
                    ranges@[j],
                    out@[homes@[j] as int],
                ),
        decreases ranges@.len() - k,
    {
        let range: (u64, usize) = ranges[k];
        let n: usize = out.len();
        let ghost before = out@;
        if n > 0 && out[n - 1].0 + out[n - 1].1 as u64 == range.0 && range.1 <= usize::MAX
            - out[n - 1].1 {
            let last: (u64, usize) = out[n - 1];
            out.set(n - 1, (last.0, last.1 + range.1));
            homes.push(n - 1);
        } else {
            out.push(range);
            homes.push(n);
        }
        proof {
            assert(out@ =~= joined(ranges@, (k + 1) as nat));
            assert(forall|m: int|
                0 <= m < before.len() ==> lies_within(before[m], #[trigger] out@[m]));
            assert forall|j: int| 0 <= j < k + 1 implies #[trigger] homes@[j] < out@.len()
                && lies_within(ranges@[j], out@[homes@[j] as int]) by {
                if j < k {
                    assert(lies_within(ranges@[j], before[homes@[j] as int]));
                    assert(lies_within(before[homes@[j] as int], out@[homes@[j] as int]));
                }
            }
        }
        k = k + 1;
    }
    (out, homes)
}

} // verus!
