//! Reading some columns gives what reading all of them gives.

use crate::batch;
use crate::decoding;
use crate::error::Error;
use crate::file_round_trip;
use crate::image;
use crate::layout::{GroupView, LayoutView};
use crate::reader;
use crate::row_group;
use crate::row_group::{FileView, PageView};
use crate::schema;
use crate::schema::SchemaView;
use crate::types::DataType;
use crate::values::CellView;
use vstd::prelude::*;

verus! {

/// All columns, projected.
pub open spec fn everything(s: SchemaView) -> Seq<bool> {
    Seq::new(s.columns.len(), |c: int| true)
}

/// What is left of a list where only some of its items are wanted.
pub open spec fn masked<A>(items: Seq<Option<A>>, want: Seq<bool>) -> Seq<Option<A>> {
    Seq::new(
        items.len(),
        |k: int| if want[k] {
            items[k]
        } else {
            None
        },
    )
}

/// A list whose first error is none has none.
proof fn lemma_none_of(errors: Seq<Option<Error>>, i: int)
    requires
        row_group::first_error(errors) is None,
        0 <= i < errors.len(),
    ensures
        errors[i] is None,
    decreases errors.len(),
{
    if i < errors.len() - 1 {
        lemma_none_of(errors.drop_last(), i);
    }
}

proof fn lemma_fewer_pages(
    dts: Seq<DataType>,
    all: Seq<bool>,
    want: Seq<bool>,
    slots: Seq<Seq<u8>>,
    num_rows: nat,
    k: int,
    acc: Seq<Option<PageView>>,
)
    requires
        all.len() == dts.len(),
        want.len() == dts.len(),
        forall|i: int| 0 <= i < all.len() ==> #[trigger] all[i],
        0 <= k <= dts.len(),
        acc.len() == k,
        row_group::pages_from(dts, all, slots, num_rows, k, acc) is Ok,
    ensures
        ({
            let pages = row_group::pages_from(dts, all, slots, num_rows, k, acc)->Ok_0;
            &&& pages.len() == dts.len()
            &&& row_group::pages_from(dts, want, slots, num_rows, k, masked(acc, want)) == Ok::<
                Seq<Option<PageView>>,
                Error,
            >(masked(pages, want))
        }),
    decreases dts.len() - k,
{
    if k < dts.len() {
        assert(all[k]);
        let p = row_group::parse_slot(dts[k], slots[k], num_rows)->Ok_0;
        lemma_fewer_pages(dts, all, want, slots, num_rows, k + 1, acc.push(Some(p)));
        assert(masked(acc.push(Some(p)), want) =~= masked(acc, want).push(
            if want[k] {
                Some(p)
            } else {
                None
            },
        ));
    }
}

proof fn lemma_fewer_columns(
    dts: Seq<DataType>,
    want: Seq<bool>,
    pages: Seq<Option<PageView>>,
    num_rows: nat,
    k: int,
    acc: Seq<Option<Seq<CellView>>>,
)
    requires
        want.len() == dts.len(),
        pages.len() == dts.len(),
        0 <= k <= dts.len(),
        acc.len() == k,
        row_group::page_columns_from(dts, pages, num_rows, k, acc) is Ok,
    ensures
        ({
            let columns = row_group::page_columns_from(dts, pages, num_rows, k, acc)->Ok_0;
            &&& columns.len() == dts.len()
            &&& row_group::page_columns_from(
                dts,
                masked(pages, want),
                num_rows,
                k,
                masked(acc, want),
            ) == Ok::<Seq<Option<Seq<CellView>>>, Error>(masked(columns, want))
        }),
    decreases dts.len() - k,
{
    if k < dts.len() {
        let cell = match pages[k] {
            None => None,
            Some(p) => Some(
                decoding::page_cells(
                    dts[k],
                    p.kind,
                    p.flag,
                    p.constant,
                    p.info,
                    p.bytes,
                    num_rows,
                )->Ok_0,
            ),
        };
        lemma_fewer_columns(dts, want, pages, num_rows, k + 1, acc.push(cell));
        assert(masked(acc.push(cell), want) =~= masked(acc, want).push(
            if want[k] {
                cell
            } else {
                None
            },
        ));
    }
}

/// A bucket that opens with all columns opens with some, and they read the same.
proof fn lemma_bucket_agrees(
    f: FileView,
    file: Seq<u8>,
    g: GroupView,
    projected: Seq<bool>,
    b: int,
)
    requires
        f.schema.columns.len() <= usize::MAX,
        projected.len() == f.schema.columns.len(),
        0 <= b < f.schema.num_buckets,
        row_group::layout_error(f, g, everything(f.schema), b) is None,
        row_group::open_bucket(f, file, g, everything(f.schema), b) is Ok,
        row_group::read_bucket(
            image::bucket_types(f.schema, b),
            row_group::wanted(f.schema, everything(f.schema), b),
            row_group::open_bucket(f, file, g, everything(f.schema), b)->Ok_0,
            g.num_rows,
        ) is Ok,
    ensures
        row_group::layout_error(f, g, projected, b) is None,
        row_group::open_bucket(f, file, g, projected, b) is Ok,
        row_group::is_sound_bucket(f, file, g, everything(f.schema), b)
            ==> row_group::is_sound_bucket(f, file, g, projected, b),
        ({
            let dts = image::bucket_types(f.schema, b);
            let all = row_group::wanted(f.schema, everything(f.schema), b);
            let want = row_group::wanted(f.schema, projected, b);
            let found = row_group::read_bucket(
                dts,
                all,
                row_group::open_bucket(f, file, g, everything(f.schema), b)->Ok_0,
                g.num_rows,
            )->Ok_0;
            row_group::read_bucket(
                dts,
                want,
                row_group::open_bucket(f, file, g, projected, b)->Ok_0,
                g.num_rows,
            ) == Ok::<Seq<Option<Seq<CellView>>>, Error>(masked(found, want))
                && found.len() == dts.len()
        }),
{
    reveal(row_group::open_bucket);
    reveal(row_group::is_sound_bucket);
    let s = f.schema;
    let whole = everything(s);
    let dts = image::bucket_types(s, b);
    let members = image::bucket_members(s, b);
    let all = row_group::wanted(s, whole, b);
    let want = row_group::wanted(s, projected, b);
    schema::lemma_members(s.columns, b as nat, s.columns.len());
    assert forall|i: int| 0 <= i < all.len() implies #[trigger] all[i] by {
        assert(members[i] < s.columns.len());
    }
    let found = row_group::read_bucket(
        dts,
        all,
        row_group::open_bucket(f, file, g, whole, b)->Ok_0,
        g.num_rows,
    )->Ok_0;
    let got = row_group::read_bucket(
        dts,
        want,
        row_group::open_bucket(f, file, g, projected, b)->Ok_0,
        g.num_rows,
    );
    if row_group::is_needed(s, projected, b) {
        let k = choose|k: int|
            0 <= k < members.len() && projected[(#[trigger] members[k]) as int];
        assert(whole[members[k] as int]);
        assert(row_group::is_needed(s, whole, b));
        match g.layouts[b] {
            LayoutView::Empty => {
                assert(got->Ok_0 =~= masked(found, want));
            },
            LayoutView::Monolithic { .. } => {
                assert(got->Ok_0 =~= masked(found, want));
            },
            LayoutView::Paged { .. } => {
                let slots = row_group::slots_at(
                    file,
                    g.offsets[b] as int,
                    row_group::sizes_at(f, file, g, b),
                );
                let none = Seq::<Option<PageView>>::empty();
                let nil = Seq::<Option<Seq<CellView>>>::empty();
                lemma_fewer_pages(dts, all, want, slots, g.num_rows, 0, none);
                assert(masked(none, want) =~= none);
                let pages = row_group::pages_from(dts, all, slots, g.num_rows, 0, none)->Ok_0;
                lemma_fewer_columns(dts, want, pages, g.num_rows, 0, nil);
                assert(masked(nil, want) =~= nil);
                if row_group::is_sound_bucket(f, file, g, whole, b) {
                    assert forall|i: int| 0 <= i < want.len() && want[i] implies
                        row_group::is_sound_slot(#[trigger] slots[i]) by {
                        assert(all[i]);
                    }
                }
            },
        }
    } else {
        assert forall|i: int| 0 <= i < want.len() implies !(#[trigger] want[i]) by {
            assert(!projected[members[i] as int]);
        }
        assert(found.len() == dts.len()) by {
            if row_group::is_needed(s, whole, b) {
                if let LayoutView::Paged { .. } = g.layouts[b] {
                    let slots = row_group::slots_at(
                        file,
                        g.offsets[b] as int,
                        row_group::sizes_at(f, file, g, b),
                    );
                    let none = Seq::<Option<PageView>>::empty();
                    let nil = Seq::<Option<Seq<CellView>>>::empty();
                    lemma_fewer_pages(dts, all, want, slots, g.num_rows, 0, none);
                    let pages = row_group::pages_from(dts, all, slots, g.num_rows, 0, none)->Ok_0;
                    lemma_fewer_columns(dts, want, pages, g.num_rows, 0, nil);
                }
            }
        }
        assert(got->Ok_0 =~= masked(found, want));
    }
}

/// Whether every column is in a bucket.
pub open spec fn has_buckets(s: SchemaView) -> bool {
    &&& s.columns.len() <= usize::MAX
    &&& forall|c: int|
        0 <= c < s.columns.len() ==> (#[trigger] s.columns[c]).bucket_id < s.num_buckets
}

/// A row group that opens and reads with all columns opens with some, and each of their
/// buckets reads the same.
proof fn lemma_opens_with_fewer(
    f: FileView,
    file: Seq<u8>,
    g: GroupView,
    projected: Seq<bool>,
)
    requires
        has_buckets(f.schema),
        projected.len() == f.schema.columns.len(),
        row_group::open_buckets(f, file, g, everything(f.schema)) is Ok,
        row_group::read_error(
            f.schema,
            everything(f.schema),
            row_group::open_buckets(f, file, g, everything(f.schema))->Ok_0,
            g.num_rows,
        ) is None,
    ensures
        row_group::open_buckets(f, file, g, projected) is Ok,
        row_group::is_sound_group(f, file, g, everything(f.schema))
            ==> row_group::is_sound_group(f, file, g, projected),
        ({
            let opened = row_group::open_buckets(f, file, g, everything(f.schema))->Ok_0;
            let fewer = row_group::open_buckets(f, file, g, projected)->Ok_0;
            &&& row_group::read_error(f.schema, projected, fewer, g.num_rows) is None
            &&& forall|b: int|
                0 <= b < f.schema.num_buckets ==> {
                    let found = row_group::bucket_found(
                        f.schema,
                        everything(f.schema),
                        opened,
                        g.num_rows,
                        b,
                    );
                    &&& found is Ok
                    &&& found->Ok_0.len() == image::bucket_members(f.schema, b).len()
                    &&& #[trigger] row_group::bucket_found(
                        f.schema,
                        projected,
                        fewer,
                        g.num_rows,
                        b,
                    ) == Ok::<Seq<Option<Seq<CellView>>>, Error>(
                        masked(found->Ok_0, row_group::wanted(f.schema, projected, b)),
                    )
                }
        }),
{
    let s = f.schema;
    let n = s.num_buckets;
    let whole = everything(s);
    let opened = row_group::open_buckets(f, file, g, whole)->Ok_0;
    reveal(row_group::read_error);
    assert forall|b: int| 0 <= b < n implies row_group::layout_error(f, g, projected, b) is None
        && row_group::open_bucket(f, file, g, projected, b) is Ok && (row_group::is_sound_bucket(
        f,
        file,
        g,
        whole,
        b,
    ) ==> row_group::is_sound_bucket(f, file, g, projected, b)) && {
        let found = row_group::bucket_found(s, whole, opened, g.num_rows, b);
        &&& found is Ok
        &&& found->Ok_0.len() == image::bucket_members(s, b).len()
        &&& row_group::read_bucket(
            image::bucket_types(s, b),
            row_group::wanted(s, projected, b),
            (#[trigger] row_group::open_bucket(f, file, g, projected, b))->Ok_0,
            g.num_rows,
        ) == Ok::<Seq<Option<Seq<CellView>>>, Error>(
            masked(found->Ok_0, row_group::wanted(s, projected, b)),
        )
    } by {
        lemma_opened_with_all(f, file, g, b);
        lemma_none_of(
            Seq::new(
                n,
                |b: int|
                    match row_group::bucket_found(s, whole, opened, g.num_rows, b) {
                        Err(e) => Some(e),
                        Ok(_) => None,
                    },
            ),
            b,
        );
        assert(opened[b] == row_group::open_bucket(f, file, g, whole, b)->Ok_0);
        lemma_bucket_agrees(f, file, g, projected, b);
    }
    let stored = Seq::new(n, |b: int| row_group::layout_error(f, g, projected, b));
    let early = Seq::new(n, |b: int| row_group::early_error(f, file, g, projected, b));
    let late = Seq::new(n, |b: int| row_group::late_error(f, file, g, projected, b));
    assert forall|b: int| 0 <= b < n implies #[trigger] stored[b] is None by {
        assert(row_group::open_bucket(f, file, g, projected, b) is Ok);
    }
    assert forall|b: int| 0 <= b < n implies #[trigger] early[b] is None by {
        assert(row_group::open_bucket(f, file, g, projected, b) is Ok);
        reveal(row_group::open_bucket);
    }
    assert forall|b: int| 0 <= b < n implies #[trigger] late[b] is None by {
        assert(row_group::open_bucket(f, file, g, projected, b) is Ok);
    }
    row_group::lemma_no_error(stored);
    row_group::lemma_no_error(early);
    row_group::lemma_no_error(late);
    let fewer = row_group::open_buckets(f, file, g, projected)->Ok_0;
    if row_group::is_sound_group(f, file, g, whole) {
        assert forall|b: int| 0 <= b < n implies #[trigger] row_group::is_sound_bucket(
            f,
            file,
            g,
            projected,
            b,
        ) by {
            assert(row_group::is_sound_bucket(f, file, g, whole, b));
            assert(row_group::open_bucket(f, file, g, projected, b) is Ok);
        }
    }
    assert forall|b: int| 0 <= b < n implies {
        let found = row_group::bucket_found(s, whole, opened, g.num_rows, b);
        &&& found is Ok
        &&& found->Ok_0.len() == image::bucket_members(s, b).len()
        &&& #[trigger] row_group::bucket_found(s, projected, fewer, g.num_rows, b) == Ok::<
            Seq<Option<Seq<CellView>>>,
            Error,
        >(masked(found->Ok_0, row_group::wanted(s, projected, b)))
    } by {
        assert(fewer[b] == row_group::open_bucket(f, file, g, projected, b)->Ok_0);
    }
    let errors = Seq::new(
        n,
        |b: int|
            match row_group::bucket_found(s, projected, fewer, g.num_rows, b) {
                Err(e) => Some(e),
                Ok(_) => None,
            },
    );
    row_group::lemma_no_error(errors);
}

proof fn lemma_opened_with_all(f: FileView, file: Seq<u8>, g: GroupView, b: int)
    requires
        has_buckets(f.schema),
        row_group::open_buckets(f, file, g, everything(f.schema)) is Ok,
        0 <= b < f.schema.num_buckets,
    ensures
        row_group::layout_error(f, g, everything(f.schema), b) is None,
        row_group::open_bucket(f, file, g, everything(f.schema), b) is Ok,
{
    let s = f.schema;
    let n = s.num_buckets;
    let whole = everything(s);
    lemma_none_of(Seq::new(n, |b: int| row_group::layout_error(f, g, whole, b)), b);
    lemma_none_of(Seq::new(n, |b: int| row_group::early_error(f, file, g, whole, b)), b);
    schema::lemma_members(s.columns, b as nat, s.columns.len());
    assert(!row_group::is_partial(s, g, whole, b));
}

proof fn lemma_kept_alike(
    order: Seq<usize>,
    a: Seq<Option<Seq<CellView>>>,
    b: Seq<Option<Seq<CellView>>>,
    n: nat,
)
    requires
        n <= order.len(),
        forall|i: int|
            0 <= i < order.len() ==> a[(#[trigger] order[i]) as int] == b[order[i] as int],
    ensures
        row_group::kept(order, a, n) == row_group::kept(order, b, n),
        forall|i: int|
            0 <= i < row_group::kept(order, a, n).len() ==> order.contains(
                #[trigger] row_group::kept(order, a, n)[i],
            ) && a[row_group::kept(order, a, n)[i] as int] is Some,
    decreases n,
{
    if n > 0 {
        lemma_kept_alike(order, a, b, (n - 1) as nat);
        assert(a[order[n - 1] as int] == b[order[n - 1] as int]);
        assert(order.contains(order[n - 1]));
    }
}

proof fn lemma_all_in_kept(found: Seq<Option<Seq<CellView>>>, n: nat, c: int)
    requires
        n <= found.len() <= usize::MAX,
        0 <= c < n,
        found[c] is Some,
    ensures
        row_group::kept(reader::all_columns(found.len()), found, n).contains(c as usize),
    decreases n,
{
    let order = reader::all_columns(found.len());
    let now = row_group::kept(order, found, n);
    let before = row_group::kept(order, found, (n - 1) as nat);
    if c < n - 1 {
        lemma_all_in_kept(found, (n - 1) as nat, c);
        let i = choose|i: int| 0 <= i < before.len() && before[i] == c as usize;
        assert(now[i] == c as usize);
    } else {
        assert(now[now.len() - 1] == c as usize);
    }
}

/// Some columns of a row group read as they do where all of them are read: where that
/// succeeds, the projected columns open, and those that are stored come out with the
/// same cells, in the order that is asked for.
pub proof fn lemma_projection_agrees(
    f: FileView,
    file: Seq<u8>,
    g: GroupView,
    projected: Seq<bool>,
    order: Seq<usize>,
)
    requires
        has_buckets(f.schema),
        projected.len() == f.schema.columns.len(),
        file_round_trip::is_projected(order, projected),
        row_group::open_buckets(f, file, g, everything(f.schema)) is Ok,
        row_group::read_group(
            f.schema,
            everything(f.schema),
            reader::all_columns(f.schema.columns.len()),
            row_group::open_buckets(f, file, g, everything(f.schema))->Ok_0,
            g.num_rows,
        ) is Ok,
    ensures
        row_group::open_buckets(f, file, g, projected) is Ok,
        row_group::is_sound_group(f, file, g, everything(f.schema))
            ==> row_group::is_sound_group(f, file, g, projected),
        ({
            let found = row_group::columns_found(
                f.schema,
                everything(f.schema),
                row_group::open_buckets(f, file, g, everything(f.schema))->Ok_0,
                g.num_rows,
            );
            let read = row_group::read_group(
                f.schema,
                projected,
                order,
                row_group::open_buckets(f, file, g, projected)->Ok_0,
                g.num_rows,
            );
            let list = row_group::kept(order, found, order.len());
            &&& read is Ok
            &&& read->Ok_0.num_rows == g.num_rows
            &&& read->Ok_0.fields == Seq::new(
                list.len(),
                |i: int| f.schema.columns[list[i] as int].field,
            )
            &&& read->Ok_0.columns == Seq::new(list.len(), |i: int| found[list[i] as int]->0)
            &&& (forall|c: int| 0 <= c < found.len() ==> #[trigger] found[c] is Some) ==> list
                == order
        }),
{
    let s = f.schema;
    let whole = everything(s);
    let opened = row_group::open_buckets(f, file, g, whole)->Ok_0;
    let fewer = row_group::open_buckets(f, file, g, projected)->Ok_0;
    lemma_opens_with_fewer(f, file, g, projected);
    reveal(row_group::columns_found);
    reveal(row_group::assembled);
    let found = row_group::columns_found(s, whole, opened, g.num_rows);
    let some = row_group::columns_found(s, projected, fewer, g.num_rows);
    assert forall|i: int| 0 <= i < order.len() implies some[(#[trigger] order[i]) as int]
        == found[order[i] as int] by {
        let c = order[i] as int;
        let b = s.columns[c].bucket_id as int;
        let members = image::bucket_members(s, b);
        schema::lemma_members(s.columns, b as nat, s.columns.len());
        assert(members.contains(c as usize));
        let k = members.index_of(c as usize);
        assert(0 <= k < members.len() && members[k] == c as usize);
        assert(row_group::wanted(s, projected, b)[k]);
        assert(row_group::bucket_found(s, projected, fewer, g.num_rows, b) is Ok);
    }
    lemma_kept_alike(order, some, found, order.len());
    let list = row_group::kept(order, found, order.len());
    let columns = Seq::new(list.len(), |i: int| found[list[i] as int]->0);
    assert(columns =~= Seq::new(list.len(), |i: int| some[list[i] as int]->0)) by {
        assert forall|i: int| 0 <= i < list.len() implies found[list[i] as int]
            == some[list[i] as int] by {
            assert(order.contains(list[i]));
            let j = choose|j: int| 0 <= j < order.len() && order[j] == list[i];
            assert(some[order[j] as int] == found[order[j] as int]);
        }
    }
    let fields = Seq::new(list.len(), |i: int| s.columns[list[i] as int].field);
    let nullable = Seq::new(fields.len(), |i: int| fields[i].nullable);
    if batch::misplaced_null(nullable, columns) {
        let i = choose|i: int|
            0 <= i < nullable.len() && 0 <= i < columns.len() && !(#[trigger] nullable[i])
                && batch::has_null(columns[i]);
        let c = list[i] as int;
        assert(order.contains(list[i]));
        assert(found[c] is Some);
        lemma_all_in_kept(found, found.len(), c);
        let all = row_group::kept(reader::all_columns(found.len()), found, found.len());
        let j = choose|j: int| 0 <= j < all.len() && all[j] == c as usize;
        let every = Seq::new(all.len(), |i: int| s.columns[all[i] as int].field);
        let flags = Seq::new(every.len(), |i: int| every[i].nullable);
        assert(!flags[j]);
        assert(batch::misplaced_null(
            flags,
            Seq::new(all.len(), |i: int| found[all[i] as int]->0),
        ));
    }
    if forall|c: int| 0 <= c < found.len() ==> #[trigger] found[c] is Some {
        file_round_trip::lemma_all_kept(order, found, order.len());
        assert(order.take(order.len() as int) =~= order);
    }
}

} // verus!
