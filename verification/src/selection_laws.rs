//! Which columns a reader gives: those that are asked for, by name or by place, and no others.

use crate::error::Error;
use crate::reader;
use crate::row_group;
use crate::schema;
use crate::schema::ColumnMetaView;
use crate::types::FieldView;
use crate::values::CellView;
use vstd::prelude::*;

verus! {

/// The column of a name has that name, no column before it has it, and there is one
/// wherever some column has it.
pub proof fn lemma_named(columns: Seq<ColumnMetaView>, name: Seq<char>, n: nat)
    requires
        n <= columns.len(),
    ensures
        match reader::named(columns, name, n) {
            Some(c) => 0 <= c < n && columns[c].field.name == name && forall|j: int|
                0 <= j < c ==> (#[trigger] columns[j]).field.name != name,
            None => forall|j: int| 0 <= j < n ==> (#[trigger] columns[j]).field.name != name,
        },
    decreases n,
{
    if n > 0 {
        lemma_named(columns, name, (n - 1) as nat);
    }
}

/// Choosing columns by name fails exactly where some name is that of no column.
pub proof fn lemma_selection_fails(columns: Seq<ColumnMetaView>, names: Seq<&str>, n: nat)
    requires
        n <= names.len(),
    ensures
        reader::selected(columns, names, n) is Err <==> exists|i: int|
            0 <= i < n && forall|c: int|
                0 <= c < columns.len() ==> (#[trigger] columns[c]).field.name != (
                #[trigger] names[i])@,
        reader::selected(columns, names, n) is Err ==> reader::selected(columns, names, n)->Err_0
            == Error::UnknownColumn,
    decreases n,
{
    if n > 0 {
        lemma_selection_fails(columns, names, (n - 1) as nat);
        lemma_named(columns, names[n - 1]@, columns.len());
    }
}

/// No column is chosen twice, and there are no more than names.
pub proof fn lemma_selected_once(columns: Seq<ColumnMetaView>, names: Seq<&str>, n: nat)
    requires
        n <= names.len(),
        columns.len() <= usize::MAX,
        reader::selected(columns, names, n) is Ok,
    ensures
        reader::selected(columns, names, n)->Ok_0.len() <= n,
        reader::selected(columns, names, n)->Ok_0.no_duplicates(),
        forall|k: int|
            0 <= k < reader::selected(columns, names, n)->Ok_0.len() ==> (
            #[trigger] reader::selected(columns, names, n)->Ok_0[k]) < columns.len(),
    decreases n,
{
    if n > 0 {
        lemma_selected_once(columns, names, (n - 1) as nat);
        lemma_named(columns, names[n - 1]@, columns.len());
    }
}

/// Every column that is chosen has one of the names.
pub proof fn lemma_selected_named(columns: Seq<ColumnMetaView>, names: Seq<&str>, n: nat, k: int)
    requires
        n <= names.len(),
        columns.len() <= usize::MAX,
        reader::selected(columns, names, n) is Ok,
        0 <= k < reader::selected(columns, names, n)->Ok_0.len(),
    ensures
        reader::selected(columns, names, n)->Ok_0[k] < columns.len(),
        exists|i: int|
            0 <= i < n && (#[trigger] names[i])@ == columns[reader::selected(
                columns,
                names,
                n,
            )->Ok_0[k] as int].field.name,
    decreases n,
{
    if n > 0 {
        let m = (n - 1) as nat;
        let before = reader::selected(columns, names, m)->Ok_0;
        let list = reader::selected(columns, names, n)->Ok_0;
        lemma_named(columns, names[n - 1]@, columns.len());
        if k < before.len() {
            lemma_selected_named(columns, names, m, k);
            assert(list[k] == before[k]);
            let i = choose|i: int|
                0 <= i < m && (#[trigger] names[i])@ == columns[before[k] as int].field.name;
            assert(names[i]@ == columns[list[k] as int].field.name);
        } else {
            assert(names[n - 1]@ == columns[list[k] as int].field.name);
        }
    }
}

/// Every name has a place in the list, whose column has that name.
pub proof fn lemma_every_name_selected(
    columns: Seq<ColumnMetaView>,
    names: Seq<&str>,
    n: nat,
    i: int,
)
    requires
        n <= names.len(),
        columns.len() <= usize::MAX,
        reader::selected(columns, names, n) is Ok,
        0 <= i < n,
    ensures
        exists|k: int|
            0 <= k < reader::selected(columns, names, n)->Ok_0.len() && columns[(
            #[trigger] reader::selected(columns, names, n)->Ok_0[k]) as int].field.name
                == names[i]@,
{
    lemma_selection_fails(columns, names, n);
    lemma_named(columns, names[i]@, columns.len());
    if reader::named(columns, names[i]@, columns.len()) is None {
        assert(reader::selected(columns, names, n) is Err);
    }
    let c = reader::named(columns, names[i]@, columns.len())->0;
    lemma_selection_first(columns, names, n, i, c);
    let list = reader::selected(columns, names, n)->Ok_0;
    let k = choose|k: int| 0 <= k < list.len() && list[k] == c as usize;
    assert(columns[list[k] as int].field.name == names[i]@);
}

/// Columns that are chosen by distinct names come in the order of the names, one for each.
pub proof fn lemma_distinct_selection(columns: Seq<ColumnMetaView>, names: Seq<&str>, n: nat)
    requires
        n <= names.len(),
        columns.len() <= usize::MAX,
        reader::selected(columns, names, n) is Ok,
        forall|i: int, j: int| 0 <= i < j < n ==> (#[trigger] names[i])@ != (#[trigger] names[j])@,
    ensures
        ({
            let list = reader::selected(columns, names, n)->Ok_0;
            &&& list.len() == n
            &&& forall|i: int|
                0 <= i < n ==> columns[(#[trigger] list[i]) as int].field.name == names[i]@
        }),
    decreases n,
{
    if n > 0 {
        let m = (n - 1) as nat;
        lemma_distinct_selection(columns, names, m);
        lemma_named(columns, names[n - 1]@, columns.len());
        let before = reader::selected(columns, names, m)->Ok_0;
        let c = reader::named(columns, names[n - 1]@, columns.len())->0;
        if before.contains(c as usize) {
            let k = choose|k: int| 0 <= k < before.len() && before[k] == c as usize;
            assert(columns[before[k] as int].field.name == names[k]@);
            assert(names[k]@ != names[n - 1]@);
        }
    }
}

/// Columns come in the order in which their names come first: what an earlier name chose
/// stands before what a later one adds.
pub proof fn lemma_selection_grows(columns: Seq<ColumnMetaView>, names: Seq<&str>, m: nat, n: nat)
    requires
        m <= n <= names.len(),
        reader::selected(columns, names, n) is Ok,
    ensures
        reader::selected(columns, names, m) is Ok,
        reader::selected(columns, names, m)->Ok_0.is_prefix_of(
            reader::selected(columns, names, n)->Ok_0,
        ),
    decreases n,
{
    if m < n {
        lemma_selection_grows(columns, names, m, (n - 1) as nat);
        let a = reader::selected(columns, names, m)->Ok_0;
        let b = reader::selected(columns, names, (n - 1) as nat)->Ok_0;
        let c = reader::selected(columns, names, n)->Ok_0;
        assert(a =~= c.take(a.len() as int)) by {
            assert forall|i: int| 0 <= i < a.len() implies a[i] == c[i] by {
                assert(a[i] == b[i]);
            }
        }
    } else {
        let a = reader::selected(columns, names, m)->Ok_0;
        assert(a =~= a.take(a.len() as int));
    }
}

/// A name that is given again adds nothing, and one that was not given before adds the first
/// column that has it.
pub proof fn lemma_selection_step(columns: Seq<ColumnMetaView>, names: Seq<&str>, n: nat, c: int)
    requires
        n < names.len(),
        columns.len() <= usize::MAX,
        reader::selected(columns, names, n) is Ok,
        0 <= c < columns.len(),
        columns[c].field.name == names[n as int]@,
        forall|j: int| 0 <= j < c ==> (#[trigger] columns[j]).field.name != names[n as int]@,
    ensures
        ({
            let before = reader::selected(columns, names, n)->Ok_0;
            let now = reader::selected(columns, names, n + 1);
            now == Ok::<Seq<usize>, Error>(
                if exists|i: int| 0 <= i < n && (#[trigger] names[i])@ == names[n as int]@ {
                    before
                } else {
                    before.push(c as usize)
                },
            )
        }),
{
    lemma_named(columns, names[n as int]@, columns.len());
    let before = reader::selected(columns, names, n)->Ok_0;
    assert(reader::named(columns, names[n as int]@, columns.len()) == Some(c));
    if exists|i: int| 0 <= i < n && (#[trigger] names[i])@ == names[n as int]@ {
        let i = choose|i: int| 0 <= i < n && (#[trigger] names[i])@ == names[n as int]@;
        lemma_selection_first(columns, names, n, i, c);
    } else if before.contains(c as usize) {
        let k = choose|k: int| 0 <= k < before.len() && before[k] == c as usize;
        lemma_selected_named(columns, names, n, k);
        let i = choose|i: int|
            0 <= i < n && (#[trigger] names[i])@ == columns[before[k] as int].field.name;
        assert(names[i]@ == names[n as int]@);
    }
}

/// The list has the first column of each name.
pub proof fn lemma_selection_first(
    columns: Seq<ColumnMetaView>,
    names: Seq<&str>,
    n: nat,
    i: int,
    c: int,
)
    requires
        n <= names.len(),
        columns.len() <= usize::MAX,
        reader::selected(columns, names, n) is Ok,
        0 <= i < n,
        0 <= c < columns.len(),
        columns[c].field.name == names[i]@,
        forall|j: int| 0 <= j < c ==> (#[trigger] columns[j]).field.name != names[i]@,
    ensures
        reader::selected(columns, names, n)->Ok_0.contains(c as usize),
    decreases n,
{
    let m = (n - 1) as nat;
    let before = reader::selected(columns, names, m)->Ok_0;
    let list = reader::selected(columns, names, n)->Ok_0;
    lemma_named(columns, names[i]@, columns.len());
    if i < m {
        lemma_selection_first(columns, names, m, i, c);
        let k = choose|k: int| 0 <= k < before.len() && before[k] == c as usize;
        assert(list[k] == c as usize);
    } else if !before.contains(c as usize) {
        assert(list[before.len() as int] == c as usize);
    }
}

/// Columns that are asked for by their places come in ascending order, each once, and they
/// are exactly those that were asked for.
pub proof fn lemma_flagged_columns(asked: Seq<usize>, n: nat)
    requires
        n <= usize::MAX,
        forall|i: int| 0 <= i < asked.len() ==> #[trigger] asked[i] < n,
    ensures
        ({
            let list = reader::flagged(reader::flags(asked, n), n);
            &&& forall|j: int, k: int| 0 <= j < k < list.len() ==> #[trigger] list[j] < #[trigger] list[k]
            &&& forall|c: usize| list.contains(c) <==> asked.contains(c)
        }),
{
    let marks = reader::flags(asked, n);
    lemma_flagged(marks, n);
    let list = reader::flagged(marks, n);
    assert forall|c: usize| list.contains(c) <==> asked.contains(c) by {
        if asked.contains(c) {
            let i = choose|i: int| 0 <= i < asked.len() && asked[i] == c;
            assert(c < n);
            assert(marks[c as int]);
        }
        if list.contains(c) {
            assert(marks[c as int]);
        }
    }
}

/// What is listed of marked columns: those that are marked, in ascending order.
pub proof fn lemma_flagged(marks: Seq<bool>, n: nat)
    requires
        n <= marks.len(),
        n <= usize::MAX,
    ensures
        ({
            let list = reader::flagged(marks, n);
            &&& forall|k: int|
                0 <= k < list.len() ==> #[trigger] list[k] < n && marks[list[k] as int]
            &&& forall|j: int, k: int| 0 <= j < k < list.len() ==> #[trigger] list[j] < #[trigger] list[k]
            &&& forall|c: usize| c < n ==> (#[trigger] list.contains(c) <==> marks[c as int])
        }),
    decreases n,
{
    if n > 0 {
        let m = (n - 1) as nat;
        lemma_flagged(marks, m);
        let before = reader::flagged(marks, m);
        let list = reader::flagged(marks, n);
        assert forall|c: usize| c < n implies (#[trigger] list.contains(c) <==> marks[c as int]) by {
            if c < m {
                if before.contains(c) {
                    let k = choose|k: int| 0 <= k < before.len() && before[k] == c;
                    assert(list[k] == c);
                }
                if list.contains(c) {
                    let k = choose|k: int| 0 <= k < list.len() && list[k] == c;
                    assert(before[k] == c);
                }
            } else {
                if marks[c as int] {
                    assert(list[before.len() as int] == c);
                }
                if list.contains(c) {
                    let k = choose|k: int| 0 <= k < list.len() && list[k] == c;
                    if !marks[c as int] {
                        assert(before[k] == c);
                    }
                }
            }
        }
    }
}

/// Without a choice all columns come, in the order of the file.
pub proof fn lemma_all_columns(n: nat)
    requires
        n <= usize::MAX,
    ensures
        reader::all_columns(n).len() == n,
        forall|c: int| 0 <= c < n ==> #[trigger] reader::all_columns(n)[c] == c,
{
}

/// The place of a name is that of the first field that has it.
pub proof fn lemma_place(fields: Seq<FieldView>, name: Seq<char>, n: nat)
    requires
        n <= fields.len() <= usize::MAX,
    ensures
        match schema::place_of(fields, name, n) {
            Some(c) => c < n && fields[c as int].name == name && forall|j: int|
                0 <= j < c ==> (#[trigger] fields[j]).name != name,
            None => forall|j: int| 0 <= j < n ==> (#[trigger] fields[j]).name != name,
        },
    decreases n,
{
    if n > 0 {
        lemma_place(fields, name, (n - 1) as nat);
    }
}

/// Where all names are those of fields, the places are those of the names, in their order;
/// a name that no field has is passed over.
pub proof fn lemma_places(fields: Seq<FieldView>, names: Seq<String>, n: nat)
    requires
        n < names.len(),
        fields.len() <= usize::MAX,
    ensures
        ({
            let before = schema::places_of(fields, names, n);
            let now = schema::places_of(fields, names, n + 1);
            let name = names[n as int]@;
            &&& schema::places_of(fields, names, 0).len() == 0
            &&& (forall|j: int| 0 <= j < fields.len() ==> (#[trigger] fields[j]).name != name) ==> now
                == before
            &&& (exists|j: int| 0 <= j < fields.len() && (#[trigger] fields[j]).name == name) ==> {
                &&& now.len() == before.len() + 1
                &&& now.drop_last() == before
                &&& now.last() < fields.len()
                &&& fields[now.last() as int].name == name
                &&& forall|j: int| 0 <= j < now.last() ==> (#[trigger] fields[j]).name != name
            }
        }),
{
    lemma_place(fields, names[n as int]@, fields.len());
    let before = schema::places_of(fields, names, n);
    let now = schema::places_of(fields, names, n + 1);
    if now.len() > before.len() {
        assert(now.drop_last() =~= before);
    }
}

/// Of the columns that were asked for, those come that the row group stores, in the order that
/// was asked for.
pub proof fn lemma_stored_columns(
    order: Seq<usize>,
    found: Seq<Option<Seq<CellView>>>,
    n: nat,
)
    requires
        n <= order.len(),
    ensures
        row_group::kept(order, found, n) == order.take(n as int).filter(
            |c: usize| found[c as int] is Some,
        ),
    decreases n,
{
    reveal(Seq::filter);
    if n == 0 {
        assert(row_group::kept(order, found, 0) =~= order.take(0));
    } else {
        lemma_stored_columns(order, found, (n - 1) as nat);
        assert(order.take(n as int).drop_last() =~= order.take(n - 1));
        assert(order.take(n as int).last() == order[n - 1]);
    }
}

} // verus!
