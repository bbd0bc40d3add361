//! Collects the cells of a bucket's columns and encodes them.

use crate::bits;
use crate::bytes;
use crate::encoding;
use crate::encoding::Limits;
use crate::error::Error;
use crate::format::{ENCODING_ALL_NULL, ENCODING_CONST, ENCODING_DICT, ENCODING_PLAIN};
use crate::types;
use crate::types::DataType;
use crate::values;
use crate::values::{Cell, CellView};
use crate::varint;
use std::collections::HashMap;
use vstd::prelude::*;

verus! {

broadcast use vstd::std_specs::hash::group_hash_axioms;

/// The contents of a list of byte strings.
pub open spec fn byte_views(v: Seq<Vec<u8>>) -> Seq<Seq<u8>> {
    Seq::new(v.len(), |i: int| v[i]@)
}

/// The contents of a list of columns.
pub open spec fn columns(arrays: Seq<&Vec<Cell>>) -> Seq<Seq<CellView>> {
    Seq::new(arrays.len(), |i: int| values::cells(arrays[i]@))
}

/// The first error among the cells of a column.
pub open spec fn column_error(dt: DataType, rows: Seq<CellView>) -> Option<Error>
    decreases rows.len(),
{
    if rows.len() == 0 {
        None
    } else {
        match column_error(dt, rows.drop_last()) {
            Some(e) => Some(e),
            None => values::cell_error(dt, rows.last()),
        }
    }
}

/// How many entries a dictionary may have where `n` are asked for: no more than 32
/// bits can count.
pub open spec fn entry_limit(n: nat) -> nat {
    if n <= u32::MAX {
        n
    } else {
        u32::MAX as nat
    }
}

/// How many entries a dictionary may have where `n` are asked for.
pub fn limit_entries(n: usize) -> (r: usize)
    ensures
        r == entry_limit(n as nat),
{
    if n <= u32::MAX as usize {
        n
    } else {
        u32::MAX as usize
    }
}

/// The first error among the columns.
pub open spec fn columns_error(dts: Seq<DataType>, rows: Seq<Seq<CellView>>) -> Option<Error>
    decreases rows.len(),
{
    if rows.len() == 0 {
        None
    } else {
        match columns_error(dts, rows.drop_last()) {
            Some(e) => Some(e),
            None => column_error(dts[rows.len() - 1], rows.last()),
        }
    }
}

/// The bytes that storing the columns takes.
pub open spec fn stored_size(dts: Seq<DataType>, rows: Seq<Seq<CellView>>) -> nat
    decreases rows.len(),
{
    if rows.len() == 0 {
        0
    } else {
        stored_size(dts, rows.drop_last()) + encoding::flat(
            encoding::vals(dts[rows.len() - 1], rows.last()),
        ).len()
    }
}

/// A size, or the largest number where it exceeds that.
pub open spec fn capped(n: int) -> int {
    if n > usize::MAX {
        usize::MAX as int
    } else {
        n
    }
}

/// A size, or the largest number where it exceeds that.
fn cap(n: u128) -> (r: usize)
    ensures
        r == capped(n as int),
{
    if n > usize::MAX as u128 {
        usize::MAX
    } else {
        n as usize
    }
}

/// The size of what a bucket holds of a column behind its header.
pub open spec fn column_size(dt: DataType, rows: Seq<CellView>, limits: Limits) -> nat {
    encoding::const_part(dt, rows, limits).len() + encoding::dict_part(dt, rows, limits).len()
        + encoding::null_part(dt, rows).len() + encoding::data_part(dt, rows, limits).len()
}

/// The size of what a bucket holds of its first `n` columns behind its header.
pub open spec fn columns_size(
    dts: Seq<DataType>,
    rows: Seq<Seq<CellView>>,
    limits: Limits,
    n: nat,
) -> nat
    decreases n,
{
    if n == 0 {
        0
    } else {
        columns_size(dts, rows, limits, (n - 1) as nat) + column_size(
            dts[n - 1],
            rows[n - 1],
            limits,
        )
    }
}

proof fn lemma_flat_len_next(parts: Seq<Seq<u8>>, i: int)
    requires
        0 <= i < parts.len(),
    ensures
        encoding::flat(parts.take(i + 1)).len() == encoding::flat(parts.take(i)).len()
            + parts[i].len(),
{
    assert(parts.take(i + 1) =~= parts.take(i).push(parts[i]));
    encoding::lemma_flat_push(parts.take(i), parts[i]);
}

proof fn lemma_columns_size(
    dts: Seq<DataType>,
    rows: Seq<Seq<CellView>>,
    limits: Limits,
    n: nat,
)
    requires
        n <= dts.len(),
    ensures
        columns_size(dts, rows, limits, n) == encoding::flat(
            encoding::const_parts(dts, rows, limits).take(n as int),
        ).len() + encoding::flat(encoding::dict_parts(dts, rows, limits).take(n as int)).len()
            + encoding::flat(encoding::null_parts(dts, rows).take(n as int)).len()
            + encoding::flat(encoding::data_parts(dts, rows, limits).take(n as int)).len(),
    decreases n,
{
    let consts = encoding::const_parts(dts, rows, limits);
    let dicts = encoding::dict_parts(dts, rows, limits);
    let nulls = encoding::null_parts(dts, rows);
    let datas = encoding::data_parts(dts, rows, limits);
    if n == 0 {
        assert(consts.take(0) =~= Seq::<Seq<u8>>::empty());
        assert(dicts.take(0) =~= Seq::<Seq<u8>>::empty());
        assert(nulls.take(0) =~= Seq::<Seq<u8>>::empty());
        assert(datas.take(0) =~= Seq::<Seq<u8>>::empty());
    } else {
        lemma_columns_size(dts, rows, limits, (n - 1) as nat);
        lemma_flat_len_next(consts, n - 1);
        lemma_flat_len_next(dicts, n - 1);
        lemma_flat_len_next(nulls, n - 1);
        lemma_flat_len_next(datas, n - 1);
    }
}

/// The size of a bucket is that of its header and its columns.
proof fn lemma_bucket_len(dts: Seq<DataType>, rows: Seq<Seq<CellView>>, limits: Limits)
    ensures
        encoding::bucket_bytes(dts, rows, limits).len() == encoding::header(
            dts,
            rows,
            limits,
        ).len() + columns_size(dts, rows, limits, dts.len()),
{
    let n = dts.len();
    lemma_columns_size(dts, rows, limits, n);
    let consts = encoding::const_parts(dts, rows, limits);
    let dicts = encoding::dict_parts(dts, rows, limits);
    let nulls = encoding::null_parts(dts, rows);
    let datas = encoding::data_parts(dts, rows, limits);
    assert(consts.take(n as int) =~= consts);
    assert(dicts.take(n as int) =~= dicts);
    assert(nulls.take(n as int) =~= nulls);
    assert(datas.take(n as int) =~= datas);
}

/// No cell of an accepted column has an error.
pub proof fn lemma_column_error(dt: DataType, rows: Seq<CellView>)
    ensures
        column_error(dt, rows) is None <==> forall|i: int|
            0 <= i < rows.len() ==> values::cell_error(dt, #[trigger] rows[i]) is None,
    decreases rows.len(),
{
    if rows.len() > 0 {
        lemma_column_error(dt, rows.drop_last());
        if column_error(dt, rows) is None {
            assert forall|i: int| 0 <= i < rows.len() implies values::cell_error(
                dt,
                #[trigger] rows[i],
            ) is None by {
                if i < rows.len() - 1 {
                    assert(rows.drop_last()[i] == rows[i]);
                }
            }
        } else if column_error(dt, rows.drop_last()) is None {
            assert(values::cell_error(dt, rows[rows.len() - 1]) is Some);
        } else {
            let i = choose|i: int|
                0 <= i < rows.len() - 1 && values::cell_error(dt, #[trigger] rows.drop_last()[i])
                    is Some;
            assert(values::cell_error(dt, rows[i]) is Some);
        }
    }
}

pub proof fn lemma_columns_error(dts: Seq<DataType>, rows: Seq<Seq<CellView>>)
    requires
        columns_error(dts, rows) is None,
    ensures
        forall|i: int| 0 <= i < rows.len() ==> column_error(dts[i], #[trigger] rows[i]) is None,
    decreases rows.len(),
{
    if rows.len() > 0 {
        lemma_columns_error(dts, rows.drop_last());
        assert forall|i: int| 0 <= i < rows.len() implies column_error(
            dts[i],
            #[trigger] rows[i],
        ) is None by {
            if i < rows.len() - 1 {
                assert(rows.drop_last()[i] == rows[i]);
            }
        }
    }
}

/// The distinct values of a column so far, and each value as its place among
/// them.
struct Dictionary {
    entries: Vec<Vec<u8>>,
    total_bytes: usize,
    places: Vec<usize>,
    /// Where the values are narrow, the place of each by the number it spells.
    by_number: HashMap<u64, usize>,
}

impl Dictionary {
    spec fn holds(&self, dt: DataType, vs: Seq<Seq<u8>>) -> bool {
        let d = encoding::distinct(vs);
        &&& byte_views(self.entries@) == d
        &&& self.total_bytes == encoding::flat(d).len()
        &&& self.places@.len() == vs.len()
        &&& forall|i: int|
            0 <= i < vs.len() ==> #[trigger] self.places@[i] == encoding::indices(vs)[i]
        &&& encoding::narrow(dt) ==> {
            &&& forall|i: int|
                0 <= i < d.len() ==> (#[trigger] d[i]).len() == types::width(dt)
                    && self.by_number@.dom().contains(bytes::be_value(d[i]) as u64)
                    && self.by_number@[bytes::be_value(d[i]) as u64] == i
            &&& forall|k: u64| #[trigger]
                self.by_number@.dom().contains(k) ==> {
                    &&& 0 <= self.by_number@[k] < d.len()
                    &&& bytes::be_value(d[self.by_number@[k] as int]) == k
                }
        }
    }

    fn new(Ghost(dt): Ghost<DataType>) -> (r: Dictionary)
        ensures
            r.holds(dt, Seq::empty()),
    {
        let r: Dictionary = Dictionary {
            entries: Vec::new(),
            total_bytes: 0,
            places: Vec::new(),
            by_number: HashMap::new(),
        };
        assert(byte_views(r.entries@) =~= encoding::distinct(Seq::empty()));
        r
    }

    /// The place of the value `buf[start..end]`, if it has one.
    fn find(
        &self,
        dt: &DataType,
        buf: &Vec<u8>,
        start: usize,
        end: usize,
        Ghost(vs): Ghost<Seq<Seq<u8>>>,
    ) -> (r: Option<usize>)
        requires
            self.holds(*dt, vs),
            start <= end <= buf@.len(),
            types::width(*dt) > 0 ==> end - start == types::width(*dt),
        ensures
            match r {
                Some(i) => i < encoding::distinct(vs).len() && encoding::distinct(vs)[i as int]
                    == buf@.subrange(start as int, end as int),
                None => !encoding::distinct(vs).contains(
                    buf@.subrange(start as int, end as int),
                ),
            },
    {
        let ghost d = encoding::distinct(vs);
        let ghost v = buf@.subrange(start as int, end as int);
        let w: i32 = types::fixed_width(dt);
        if w > 0 && w <= 8 {
            let key: u64 = bytes::read_be(buf, start, end - start);
            proof {
                assert(start + (end - start) == end);
                assert(key == bytes::be_value(v));
            }
            match self.by_number.get(&key) {
                Some(i) => {
                    proof {
                        assert(self.by_number@.dom().contains(key));
                        assert(d[*i as int].len() == types::width(*dt));
                        bytes::lemma_be_value_injective(d[*i as int], v);
                    }
                    Some(*i)
                },
                None => {
                    proof {
                        if d.contains(v) {
                            let i = choose|i: int| 0 <= i < d.len() && d[i] == v;
                            assert(self.by_number@.dom().contains(bytes::be_value(d[i]) as u64));
                        }
                    }
                    None
                },
            }
        } else {
            let mut i: usize = 0;
            while i < self.entries.len()
                invariant
                    i <= self.entries@.len(),
                    byte_views(self.entries@) == d,
                    start <= end <= buf@.len(),
                    v == buf@.subrange(start as int, end as int),
                    d == encoding::distinct(vs),
                    forall|j: int| 0 <= j < i ==> d[j] != v,
                decreases self.entries@.len() - i,
            {
                proof {
                    assert(d[i as int] == self.entries@[i as int]@);
                }
                if equals_range(buf, start, end, &self.entries[i]) {
                    return Some(i);
                }
                i = i + 1;
            }
            None
        }
    }

    /// Adds the value `buf[start..end]`.
    fn note(
        &mut self,
        dt: &DataType,
        buf: &Vec<u8>,
        start: usize,
        end: usize,
        Ghost(vs): Ghost<Seq<Seq<u8>>>,
    )
        requires
            old(self).holds(*dt, vs),
            start <= end <= buf@.len(),
            types::width(*dt) > 0 ==> end - start == types::width(*dt),
            encoding::flat(vs).len() + (end - start) <= usize::MAX,
        ensures
            final(self).holds(*dt, vs.push(buf@.subrange(start as int, end as int))),
    {
        let ghost v = buf@.subrange(start as int, end as int);
        let ghost d = encoding::distinct(vs);
        let ghost all = vs.push(v);
        proof {
            encoding::lemma_distinct(vs);
            encoding::lemma_distinct(all);
            encoding::lemma_distinct_push(vs, v);
            encoding::lemma_indices_push(vs, v);
        }
        let ghost e = encoding::distinct(all);
        match self.find(dt, buf, start, end, Ghost(vs)) {
            Some(i) => {
                proof {
                    assert(d.contains(v));
                    assert(e == d);
                    assert(e.index_of(v) == i);
                }
                self.places.push(i);
            },
            None => {
                let place: usize = self.entries.len();
                proof {
                    encoding::lemma_flat_push(d, v);
                    assert(e == d.push(v));
                    assert(e[d.len() as int] == v);
                    assert(e.index_of(v) == d.len());
                }
                let w: i32 = types::fixed_width(dt);
                if w > 0 && w <= 8 {
                    let key: u64 = bytes::read_be(buf, start, end - start);
                    proof {
                        assert(start + (end - start) == end);
                        assert(key == bytes::be_value(v));
                        assert forall|i: int| 0 <= i < d.len() implies bytes::be_value(
                            #[trigger] d[i],
                        ) as u64 != key by {
                            assert(d[i].len() == types::width(*dt));
                            assert(self.by_number@[bytes::be_value(d[i]) as u64] == i);
                            bytes::lemma_be_value_round_trip(d[i]);
                            bytes::lemma_base_monotone(d[i].len(), 8);
                            bytes::lemma_bases();
                            if bytes::be_value(d[i]) == key {
                                bytes::lemma_be_value_injective(d[i], v);
                                assert(d.contains(v));
                            }
                        }
                    }
                    self.by_number.insert(key, place);
                }
                self.entries.push(bytes::copy_range(buf, start, end));
                self.total_bytes = self.total_bytes + (end - start);
                self.places.push(place);
                proof {
                    assert(byte_views(self.entries@) =~= e);
                    if encoding::narrow(*dt) {
                        assert forall|i: int| 0 <= i < e.len() implies (#[trigger] e[i]).len()
                            == types::width(*dt) && self.by_number@.dom().contains(
                            bytes::be_value(e[i]) as u64,
                        ) && self.by_number@[bytes::be_value(e[i]) as u64] == i by {
                            if i < d.len() {
                                assert(e[i] == d[i]);
                            }
                        }
                        assert forall|k: u64| #[trigger]
                            self.by_number@.dom().contains(k) implies {
                            &&& 0 <= self.by_number@[k] < e.len()
                            &&& bytes::be_value(e[self.by_number@[k] as int]) == k
                        } by {
                            if bytes::be_value(v) != k {
                                assert(e[self.by_number@[k] as int]
                                    == d[self.by_number@[k] as int]);
                            }
                        }
                    }
                }
            },
        }
        assert(self.places@.len() == all.len());
        assert forall|i: int| 0 <= i < all.len() implies #[trigger] self.places@[i]
            == encoding::indices(all)[i] by {
            if i < vs.len() {
                assert(encoding::indices(all)[i] == encoding::indices(vs)[i]);
            }
        }
    }
}

/// Whether `buf[start..end]` holds exactly the bytes `b`.
fn equals_range(buf: &Vec<u8>, start: usize, end: usize, b: &Vec<u8>) -> (r: bool)
    requires
        start <= end <= buf@.len(),
    ensures
        r == (buf@.subrange(start as int, end as int) == b@),
{
    let ghost v = buf@.subrange(start as int, end as int);
    if end - start != b.len() {
        return false;
    }
    let mut i: usize = 0;
    while i < b.len()
        invariant
            start <= end <= buf@.len(),
            i <= b@.len() == end - start,
            v == buf@.subrange(start as int, end as int),
            forall|j: int| 0 <= j < i ==> v[j] == b@[j],
        decreases b@.len() - i,
    {
        if buf[start + i] != b[i] {
            assert(v[i as int] != b@[i as int]);
            return false;
        }
        i = i + 1;
    }
    assert(v =~= b@);
    true
}

/// Whether the `len` bytes at `offset` repeat the first `len` bytes.
fn equals_first_value(buf: &Vec<u8>, offset: usize, len: usize) -> (r: bool)
    requires
        offset + len <= buf@.len(),
    ensures
        r == (buf@.subrange(0, len as int) == buf@.subrange(offset as int, offset + len)),
{
    let ghost first = buf@.subrange(0, len as int);
    let ghost here = buf@.subrange(offset as int, offset + len);
    assert(buf.len() == buf@.len());
    let mut i: usize = 0;
    while i < len
        invariant
            i <= len,
            offset + len <= buf@.len(),
            buf@.len() <= usize::MAX,
            first == buf@.subrange(0, len as int),
            here == buf@.subrange(offset as int, offset + len),
            forall|j: int| 0 <= j < i ==> first[j] == here[j],
        decreases len - i,
    {
        if buf[i] != buf[offset + i] {
            assert(first[i as int] != here[i as int]);
            return false;
        }
        i = i + 1;
    }
    assert(first =~= here);
    true
}

/// One column of a bucket that is being filled.
struct ColumnBuffer {
    data_type: DataType,
    nulls: Vec<bool>,
    values: Vec<u8>,
    count: usize,
    constant: bool,
    first_value_len: usize,
    dictionary: Option<Dictionary>,
    rows: Ghost<Seq<CellView>>,
}

impl ColumnBuffer {
    spec fn vals(&self) -> Seq<Seq<u8>> {
        encoding::vals(self.data_type, self.rows@)
    }

    spec fn well_formed(&self, limits: Limits) -> bool {
        let vs = self.vals();
        &&& encoding::acceptable(self.data_type, self.rows@)
        &&& self.nulls@ == encoding::nulls(self.rows@)
        &&& self.values@ == encoding::flat(vs)
        &&& self.count == vs.len()
        &&& self.constant == encoding::all_same(vs)
        &&& vs.len() > 0 ==> self.first_value_len == vs[0].len()
        &&& self.dictionary is Some <==> encoding::within(self.data_type, vs, limits)
        &&& self.dictionary is Some ==> self.dictionary->0.holds(self.data_type, vs)
    }

    fn new(data_type: DataType, Ghost(limits): Ghost<Limits>) -> (r: ColumnBuffer)
        ensures
            r.well_formed(limits),
            r.data_type == data_type,
            r.rows@ == Seq::<CellView>::empty(),
    {
        let r: ColumnBuffer = ColumnBuffer {
            data_type,
            nulls: Vec::new(),
            values: Vec::new(),
            count: 0,
            constant: true,
            first_value_len: 0,
            dictionary: Some(Dictionary::new(Ghost(data_type))),
            rows: Ghost(Seq::empty()),
        };
        proof {
            assert(encoding::nulls(Seq::empty()) =~= Seq::<bool>::empty());
            assert(encoding::vals(data_type, Seq::empty()) =~= Seq::<Seq<u8>>::empty());
            assert(encoding::distinct(Seq::empty()) =~= Seq::<Seq<u8>>::empty());
        }
        r
    }

    /// Adds one cell.
    fn append_cell(
        &mut self,
        cell: &Cell,
        max_dict_total_bytes: usize,
        max_dict_entries: usize,
        Ghost(limits): Ghost<Limits>,
    )
        requires
            old(self).well_formed(limits),
            limits.total_bytes == max_dict_total_bytes,
            limits.entries == max_dict_entries,
            values::cell_error(old(self).data_type, cell@) is None,
            values::cell_fits(cell@),
        ensures
            final(self).well_formed(limits),
            final(self).data_type == old(self).data_type,
            final(self).rows@ == old(self).rows@.push(cell@),
    {
        let ghost dt = self.data_type;
        let ghost rows = self.rows@;
        let ghost vs = self.vals();
        let ghost all = rows.push(cell@);
        proof {
            encoding::lemma_vals_push(dt, rows, cell@);
            assert(encoding::nulls(all) =~= encoding::nulls(rows).push(cell@ == CellView::Null));
            assert forall|i: int| 0 <= i < all.len() implies values::cell_error(
                dt,
                #[trigger] all[i],
            ) is None && values::cell_fits(all[i]) by {
                if i < rows.len() {
                    assert(all[i] == rows[i]);
                }
            }
        }
        if let Cell::Null = cell {
            self.nulls.push(true);
            self.rows = Ghost(all);
            return ;
        }
        let ghost v = values::stored(dt, cell@);
        proof {
            values::lemma_value_of_matches(dt, cell@);
            encoding::lemma_vals_len(dt, rows);
            encoding::lemma_vals_len(dt, all);
            encoding::lemma_flat_push(vs, v);
            encoding::lemma_within_push(dt, vs, v, limits);
        }
        self.nulls.push(false);
        let before: usize = self.values.len();
        values::write_typed_value(&mut self.values, &self.data_type, cell);
        let end: usize = self.values.len();
        let written: usize = end - before;
        assert(self.values@.subrange(before as int, end as int) =~= v);
        assert(self.nulls@.len() <= usize::MAX) by {
            assert(self.nulls.len() == self.nulls@.len());
        }
        self.count = self.count + 1;
        if self.constant {
            if self.count == 1 {
                self.first_value_len = written;
                assert(encoding::all_same(vs.push(v)));
            } else {
                proof {
                    encoding::lemma_flat_first(vs);
                    assert(self.values@.subrange(0, self.first_value_len as int) =~= vs[0]);
                }
                if written != self.first_value_len || !equals_first_value(
                    &self.values,
                    before,
                    written,
                ) {
                    proof {
                        assert(v != vs[0]);
                        assert(vs.push(v)[vs.len() as int] != vs.push(v)[0]);
                    }
                    self.constant = false;
                } else {
                    proof {
                        assert(v == vs[0]);
                        assert forall|i: int| 0 <= i < vs.len() + 1 implies #[trigger] vs.push(
                            v,
                        )[i] == vs.push(v)[0] by {
                            if i < vs.len() {
                                assert(vs[i] == vs[0]);
                            }
                        }
                    }
                }
            }
        } else {
            proof {
                let i = choose|i: int| 0 <= i < vs.len() && #[trigger] vs[i] != vs[0];
                assert(vs.push(v)[i] != vs.push(v)[0]);
            }
        }
        let mut keep: bool = false;
        if let Some(dictionary) = &mut self.dictionary {
            dictionary.note(&self.data_type, &self.values, before, end, Ghost(vs));
            let w: i32 = types::fixed_width(&self.data_type);
            keep = dictionary.entries.len() <= max_dict_entries && ((w > 0 && w <= 8)
                || dictionary.total_bytes <= max_dict_total_bytes);
        }
        if !keep {
            self.dictionary = None;
        }
        self.rows = Ghost(all);
    }

    /// Adds a column of cells, and returns how many bytes storing them took, or
    /// the largest number where they are more.
    fn append_column(
        &mut self,
        column: &Vec<Cell>,
        max_dict_total_bytes: usize,
        max_dict_entries: usize,
        Ghost(limits): Ghost<Limits>,
    ) -> (size: usize)
        requires
            old(self).well_formed(limits),
            limits.total_bytes == max_dict_total_bytes,
            limits.entries == max_dict_entries,
            encoding::acceptable(old(self).data_type, values::cells(column@)),
        ensures
            final(self).well_formed(limits),
            final(self).data_type == old(self).data_type,
            final(self).rows@ == old(self).rows@ + values::cells(column@),
            size == encoding::flat(
                encoding::vals(old(self).data_type, values::cells(column@)),
            ).len(),
    {
        let ghost new_rows = values::cells(column@);
        let ghost dt = self.data_type;
        let ghost start = self.rows@;
        let before: usize = self.values.len();
        let mut row: usize = 0;
        proof {
            assert(new_rows.take(0) =~= Seq::<CellView>::empty());
            assert(start + new_rows.take(0) =~= start);
            lemma_flat_vals_concat(dt, start, new_rows.take(0));
        }
        while row < column.len()
            invariant
                row <= column@.len(),
                new_rows == values::cells(column@),
                new_rows.len() == column@.len(),
                encoding::acceptable(dt, new_rows),
                self.well_formed(limits),
                self.data_type == dt,
                self.rows@ == start + new_rows.take(row as int),
                limits.total_bytes == max_dict_total_bytes,
                limits.entries == max_dict_entries,
            decreases column@.len() - row,
        {
            assert(new_rows[row as int] == column@[row as int]@);
            self.append_cell(&column[row], max_dict_total_bytes, max_dict_entries, Ghost(limits));
            assert(new_rows.take(row + 1) =~= new_rows.take(row as int).push(
                new_rows[row as int],
            ));
            row = row + 1;
            assert(self.rows@ =~= start + new_rows.take(row as int));
        }
        proof {
            assert(new_rows.take(row as int) =~= new_rows);
            lemma_flat_vals_concat(dt, start, new_rows);
        }
        self.values.len() - before
    }

    fn encoding(&self, max_dict_entries: usize, Ghost(limits): Ghost<Limits>) -> (k: u8)
        requires
            self.well_formed(limits),
            limits.entries == max_dict_entries,
            max_dict_entries <= u32::MAX,
        ensures
            k == encoding::kind(self.data_type, self.rows@, limits),
    {
        if self.count == 0 {
            ENCODING_ALL_NULL
        } else if self.constant {
            ENCODING_CONST
        } else if let Some(dictionary) = &self.dictionary {
            if dictionary.entries.len() >= 2 && self.dict_encoded_size(dictionary, Ghost(limits))
                < self.values.len() as u128 {
                ENCODING_DICT
            } else {
                ENCODING_PLAIN
            }
        } else {
            ENCODING_PLAIN
        }
    }

    fn dict_encoded_size(&self, dictionary: &Dictionary, Ghost(limits): Ghost<Limits>) -> (n: u128)
        requires
            self.well_formed(limits),
            self.dictionary == Some(*dictionary),
            limits.entries <= u32::MAX,
        ensures
            n == encoding::dict_size(self.vals()),
            n <= 0x1000 * usize::MAX,
    {
        let entries: usize = dictionary.entries.len();
        let w: usize = bits::bit_width(entries);
        let packed: u128 = packed_size(self.count, w);
        varint::encoded_size(entries as u32) as u128 + dictionary.total_bytes as u128 + packed
    }

    fn has_nulls(&self, Ghost(limits): Ghost<Limits>) -> (r: bool)
        requires
            self.well_formed(limits),
        ensures
            r == encoding::has_nulls(self.data_type, self.rows@),
    {
        self.count > 0 && self.count < self.nulls.len()
    }

    /// Appends the constant of the column.
    fn write_const(&self, out: &mut Vec<u8>, k: u8, Ghost(limits): Ghost<Limits>)
        requires
            self.well_formed(limits),
            k == encoding::kind(self.data_type, self.rows@, limits),
        ensures
            final(out)@ == old(out)@ + encoding::const_part(self.data_type, self.rows@, limits),
    {
        if k == ENCODING_CONST {
            let ghost vs = self.vals();
            proof {
                encoding::lemma_flat_first(vs);
                assert(self.values@.subrange(0, self.first_value_len as int) =~= vs[0]);
            }
            let value: Vec<u8> = bytes::copy_range(&self.values, 0, self.first_value_len);
            bytes::append_bytes(out, &value);
        } else {
            assert(out@ =~= old(out)@ + encoding::const_part(
                self.data_type,
                self.rows@,
                limits,
            ));
        }
    }

    /// Appends the table of distinct values of the column.
    fn write_dict(&self, out: &mut Vec<u8>, k: u8, Ghost(limits): Ghost<Limits>)
        requires
            self.well_formed(limits),
            k == encoding::kind(self.data_type, self.rows@, limits),
            limits.entries <= u32::MAX,
        ensures
            final(out)@ == old(out)@ + encoding::dict_part(self.data_type, self.rows@, limits),
    {
        let ghost start = out@;
        if k == ENCODING_DICT {
            if let Some(dictionary) = &self.dictionary {
                let ghost d = encoding::distinct(self.vals());
                varint::encode(out, dictionary.entries.len() as u32);
                let ghost head = out@;
                let mut i: usize = 0;
                assert(d.take(0) =~= Seq::<Seq<u8>>::empty());
                assert(head =~= head + encoding::flat(d.take(0)));
                while i < dictionary.entries.len()
                    invariant
                        i <= dictionary.entries@.len(),
                        byte_views(dictionary.entries@) == d,
                        out@ == head + encoding::flat(d.take(i as int)),
                    decreases dictionary.entries@.len() - i,
                {
                    bytes::append_bytes(out, &dictionary.entries[i]);
                    proof {
                        assert(d[i as int] == dictionary.entries@[i as int]@);
                        assert(d.take(i + 1) =~= d.take(i as int).push(d[i as int]));
                        encoding::lemma_flat_push(d.take(i as int), d[i as int]);
                        assert(out@ =~= head + encoding::flat(d.take(i + 1)));
                    }
                    i = i + 1;
                }
                assert(d.take(i as int) =~= d);
                assert(out@ =~= start + (varint::leb(d.len()) + encoding::flat(d)));
            }
        } else {
            assert(out@ =~= start + encoding::dict_part(self.data_type, self.rows@, limits));
        }
    }

    /// The size of the constant, the table, the null bitmap and the data of the
    /// column.
    fn part_size(&self, k: u8, Ghost(limits): Ghost<Limits>) -> (n: u128)
        requires
            self.well_formed(limits),
            k == encoding::kind(self.data_type, self.rows@, limits),
            limits.entries <= u32::MAX,
        ensures
            n == column_size(self.data_type, self.rows@, limits),
    {
        let null_size: u128 = if self.has_nulls(Ghost(limits)) {
            bits::bytes_for_bits(self.nulls.len()) as u128
        } else {
            0
        };
        if k == ENCODING_CONST {
            self.first_value_len as u128 + null_size
        } else if k == ENCODING_DICT {
            proof {
                let vs = self.vals();
                encoding::lemma_index_bits_len(
                    encoding::indices(vs),
                    bits::width_for(encoding::distinct(vs).len()),
                );
            }
            match &self.dictionary {
                Some(dictionary) => self.dict_encoded_size(dictionary, Ghost(limits)) + null_size,
                None => 0,
            }
        } else if k == ENCODING_PLAIN {
            self.values.len() as u128 + null_size
        } else {
            0
        }
    }

    /// Appends the null bitmap of the column.
    fn write_nulls(&self, out: &mut Vec<u8>, Ghost(limits): Ghost<Limits>)
        requires
            self.well_formed(limits),
        ensures
            final(out)@ == old(out)@ + encoding::null_part(self.data_type, self.rows@),
    {
        if self.has_nulls(Ghost(limits)) {
            let bitmap: Vec<u8> = bits::pack_bits(&self.nulls);
            bytes::append_bytes(out, &bitmap);
        } else {
            assert(out@ =~= old(out)@ + encoding::null_part(self.data_type, self.rows@));
        }
    }

    /// Appends the values or the indices of the column.
    fn write_data(&self, out: &mut Vec<u8>, k: u8, Ghost(limits): Ghost<Limits>)
        requires
            self.well_formed(limits),
            k == encoding::kind(self.data_type, self.rows@, limits),
        ensures
            final(out)@ == old(out)@ + encoding::data_part(self.data_type, self.rows@, limits),
    {
        if k == ENCODING_PLAIN {
            bytes::append_bytes(out, &self.values);
        } else if k == ENCODING_DICT {
            if let Some(dictionary) = &self.dictionary {
                let packed: Vec<u8> = write_dict_bit_packed(
                    dictionary,
                    &self.data_type,
                    Ghost(self.vals()),
                );
                bytes::append_bytes(out, &packed);
            }
        } else {
            assert(out@ =~= old(out)@ + encoding::data_part(
                self.data_type,
                self.rows@,
                limits,
            ));
        }
    }
}

/// The stored values of a column follow those of the rows before it.
proof fn lemma_flat_vals_concat(dt: DataType, a: Seq<CellView>, b: Seq<CellView>)
    ensures
        encoding::vals(dt, a + b) == encoding::vals(dt, a) + encoding::vals(dt, b),
        encoding::flat(encoding::vals(dt, a + b)) == encoding::flat(encoding::vals(dt, a))
            + encoding::flat(encoding::vals(dt, b)),
    decreases b.len(),
{
    if b.len() == 0 {
        assert(a + b =~= a);
        assert(encoding::vals(dt, a) =~= encoding::vals(dt, a) + encoding::vals(dt, b));
        assert(encoding::flat(encoding::vals(dt, a)) =~= encoding::flat(encoding::vals(dt, a))
            + encoding::flat(encoding::vals(dt, b)));
    } else {
        let c = b.drop_last();
        lemma_flat_vals_concat(dt, a, c);
        assert((a + b).drop_last() =~= a + c);
        assert((a + b).last() == b.last());
        let va = encoding::vals(dt, a);
        let vc = encoding::vals(dt, c);
        let vb = encoding::vals(dt, b);
        assert(encoding::vals(dt, a + b) =~= va + vb);
        if b.last() != CellView::Null {
            let v = values::stored(dt, b.last());
            encoding::lemma_flat_push(va + vc, v);
            encoding::lemma_flat_push(vc, v);
            assert(va + vb =~= (va + vc).push(v));
            assert(encoding::flat(va + vb) =~= encoding::flat(va) + encoding::flat(vb));
        }
    }
}

/// The bytes that `count` numbers of `w` bits take.
fn packed_size(count: usize, w: usize) -> (n: u128)
    requires
        w <= 64,
    ensures
        n == bits::byte_count((count * w) as int),
        n <= usize::MAX * 8 + 1,
{
    assert(count * w <= usize::MAX * 64) by (nonlinear_arith)
        requires
            count <= usize::MAX,
            w <= 64,
    ;
    let total: u128 = count as u128 * w as u128;
    (total + 7) / 8
}

/// The places of the values, packed.
fn write_dict_bit_packed(
    dictionary: &Dictionary,
    dt: &DataType,
    Ghost(vs): Ghost<Seq<Seq<u8>>>,
) -> (out: Vec<u8>)
    requires
        dictionary.holds(*dt, vs),
    ensures
        out@ == bits::packed(
            encoding::index_bits(
                encoding::indices(vs),
                bits::width_for(encoding::distinct(vs).len()),
            ),
        ),
{
    let w: usize = bits::bit_width(dictionary.entries.len());
    let mut all: Vec<bool> = Vec::new();
    let mut i: usize = 0;
    let ghost numbers = encoding::indices(vs);
    assert(numbers.take(0) =~= Seq::<nat>::empty());
    while i < dictionary.places.len()
        invariant
            i <= dictionary.places@.len(),
            dictionary.holds(*dt, vs),
            numbers == encoding::indices(vs),
            w == bits::width_for(encoding::distinct(vs).len()),
            all@ == encoding::index_bits(numbers.take(i as int), w as nat),
        decreases dictionary.places@.len() - i,
    {
        bits::push_low_bits(&mut all, dictionary.places[i], w);
        proof {
            assert(dictionary.places@[i as int] == numbers[i as int]);
            assert(numbers.take(i + 1).drop_last() =~= numbers.take(i as int));
        }
        i = i + 1;
    }
    assert(numbers.take(i as int) =~= numbers);
    bits::pack_bits(&all)
}

/// The parts of a bucket whose columns are compressed one by one.
pub struct PagedBucketOutput {
    pub encodings: Vec<u8>,
    pub has_nulls: Vec<bool>,
    pub const_data: Vec<Vec<u8>>,
    pub column_pages: Vec<Option<Vec<u8>>>,
}

/// Fills a bucket.
pub struct BucketWriter {
    columns: Vec<ColumnBuffer>,
    max_dict_total_bytes: usize,
    max_dict_entries: usize,
    num_rows: usize,
}

impl BucketWriter {
    /// The types of the columns.
    pub closed spec fn types(&self) -> Seq<DataType> {
        Seq::new(self.columns@.len(), |i: int| self.columns@[i].data_type)
    }

    /// The cells that were written to each column.
    pub closed spec fn rows(&self) -> Seq<Seq<CellView>> {
        Seq::new(self.columns@.len(), |i: int| self.columns@[i].rows@)
    }

    /// The limits on the dictionaries.
    pub closed spec fn limits(&self) -> Limits {
        Limits {
            total_bytes: self.max_dict_total_bytes as nat,
            entries: self.max_dict_entries as nat,
        }
    }

    /// How many rows were written.
    pub closed spec fn row_count(&self) -> nat {
        self.num_rows as nat
    }

    spec fn columns_well_formed(&self) -> bool {
        forall|i: int|
            0 <= i < self.columns@.len() ==> (#[trigger] self.columns@[i]).well_formed(
                self.limits(),
            )
    }

    /// The writer is in order: all columns have the same number of rows, all of
    /// them acceptable.
    pub closed spec fn well_formed(&self) -> bool {
        &&& self.max_dict_entries <= u32::MAX
        &&& self.columns_well_formed()
        &&& forall|i: int|
            0 <= i < self.columns@.len() ==> (#[trigger] self.columns@[i]).rows@.len()
                == self.num_rows
    }

    /// What every well-formed writer satisfies.
    pub proof fn lemma_well_formed(&self)
        requires
            self.well_formed(),
        ensures
            self.types().len() == self.rows().len(),
            self.limits().entries <= u32::MAX,
            forall|i: int|
                0 <= i < self.rows().len() ==> (#[trigger] self.rows()[i]).len()
                    == self.row_count() && encoding::acceptable(self.types()[i], self.rows()[i]),
    {
        assert forall|i: int| 0 <= i < self.rows().len() implies (#[trigger] self.rows()[i]).len()
            == self.row_count() && encoding::acceptable(self.types()[i], self.rows()[i]) by {
            assert(self.columns@[i].well_formed(self.limits()));
        }
    }

    /// A writer for columns of the given types. The number of entries of a
    /// dictionary is stored in 32 bits.
    pub fn new(
        col_types: &Vec<DataType>,
        max_dict_total_bytes: usize,
        max_dict_entries: usize,
    ) -> (w: BucketWriter)
        ensures
            w.well_formed(),
            w.types() == col_types@,
            w.rows() == Seq::new(col_types@.len(), |i: int| Seq::<CellView>::empty()),
            w.row_count() == 0,
            w.limits() == (Limits {
                total_bytes: max_dict_total_bytes as nat,
                entries: entry_limit(max_dict_entries as nat),
            }),
    {
        let max_dict_entries: usize = limit_entries(max_dict_entries);
        let ghost limits = Limits {
            total_bytes: max_dict_total_bytes as nat,
            entries: max_dict_entries as nat,
        };
        let mut columns: Vec<ColumnBuffer> = Vec::new();
        let mut i: usize = 0;
        while i < col_types.len()
            invariant
                i <= col_types@.len(),
                columns@.len() == i,
                forall|j: int|
                    0 <= j < i ==> (#[trigger] columns@[j]).well_formed(limits)
                        && columns@[j].data_type == col_types@[j] && columns@[j].rows@
                        == Seq::<CellView>::empty(),
            decreases col_types@.len() - i,
        {
            columns.push(ColumnBuffer::new(col_types[i], Ghost(limits)));
            i = i + 1;
        }
        let w: BucketWriter = BucketWriter {
            columns,
            max_dict_total_bytes,
            max_dict_entries,
            num_rows: 0,
        };
        proof {
            assert(w.types() =~= col_types@);
            assert(w.rows() =~= Seq::new(
                col_types@.len(),
                |i: int| Seq::<CellView>::empty(),
            ));
        }
        w
    }

    /// Whether no row was written.
    pub fn is_empty(&self) -> (r: bool)
        ensures
            r == (self.row_count() == 0),
    {
        self.num_rows == 0
    }

    /// Writes one column of cells to each column of the bucket. Where a cell is
    /// not accepted, the first such error comes back and nothing is written.
    /// Returns an estimate of the size of what was written.
    pub fn write_columns(&mut self, arrays: &Vec<&Vec<Cell>>) -> (r: Result<usize, Error>)
        requires
            old(self).well_formed(),
            arrays@.len() == old(self).types().len(),
            arrays@.len() >= 1,
            forall|i: int|
                0 <= i < arrays@.len() ==> (#[trigger] arrays@[i])@.len() == arrays@[0]@.len(),
            forall|i: int, j: int|
                0 <= i < arrays@.len() && 0 <= j < arrays@[i]@.len() ==> values::cell_fits(
                    #[trigger] arrays@[i]@[j]@,
                ),
        ensures
            final(self).well_formed(),
            final(self).types() == old(self).types(),
            final(self).limits() == old(self).limits(),
            arrays@[0]@.len() == 0 ==> r == Ok::<usize, Error>(0),
            arrays@[0]@.len() > 0 && columns_error(old(self).types(), columns(arrays@)) is Some
                ==> r == Err::<usize, Error>(
                columns_error(old(self).types(), columns(arrays@))->0,
            ),
            arrays@[0]@.len() > 0 && columns_error(old(self).types(), columns(arrays@)) is None
                ==> r == Ok::<usize, Error>(
                capped(
                    stored_size(old(self).types(), columns(arrays@)) + arrays@[0]@.len()
                        * bits::byte_count(arrays@.len() as int),
                ) as usize,
            ),
            r is Err ==> final(self).rows() == old(self).rows() && final(self).row_count()
                == old(self).row_count(),
            r is Ok ==> final(self).row_count() == old(self).row_count() + arrays@[0]@.len()
                && final(self).rows() == Seq::new(
                arrays@.len(),
                |i: int| old(self).rows()[i] + columns(arrays@)[i],
            ),
    {
        if arrays[0].len() > 0 {
            match self.check_columns(arrays) {
                Ok(()) => {},
                Err(e) => {
                    return Err(e);
                },
            }
        }
        Ok(self.take_columns(arrays))
    }

    /// Adds rows that were found acceptable. Returns an estimate of their size.
    pub(crate) fn take_columns(&mut self, arrays: &Vec<&Vec<Cell>>) -> (size: usize)
        requires
            old(self).well_formed(),
            arrays@.len() == old(self).types().len(),
            arrays@.len() >= 1,
            forall|i: int|
                0 <= i < arrays@.len() ==> (#[trigger] arrays@[i])@.len() == arrays@[0]@.len(),
            forall|i: int, j: int|
                0 <= i < arrays@.len() && 0 <= j < arrays@[i]@.len() ==> values::cell_fits(
                    #[trigger] arrays@[i]@[j]@,
                ),
            arrays@[0]@.len() > 0 ==> columns_error(old(self).types(), columns(arrays@)) is None,
        ensures
            final(self).well_formed(),
            final(self).types() == old(self).types(),
            final(self).limits() == old(self).limits(),
            arrays@[0]@.len() == 0 ==> size == 0,
            arrays@[0]@.len() > 0 ==> size == capped(
                stored_size(old(self).types(), columns(arrays@)) + arrays@[0]@.len()
                    * bits::byte_count(arrays@.len() as int),
            ) as usize,
            final(self).row_count() == old(self).row_count() + arrays@[0]@.len(),
            final(self).rows() == Seq::new(
                arrays@.len(),
                |i: int| old(self).rows()[i] + columns(arrays@)[i],
            ),
    {
        let ghost dts = self.types();
        let ghost news = columns(arrays@);
        let ghost limits = self.limits();
        let ghost start = self.rows();
        let num_new_rows: usize = arrays[0].len();
        if num_new_rows == 0 {
            proof {
                assert forall|i: int| 0 <= i < arrays@.len() implies start[i] + news[i]
                    == start[i] by {
                    assert(arrays@[i]@.len() == 0);
                    assert(start[i] + news[i] =~= start[i]);
                }
                assert(start =~= Seq::new(arrays@.len(), |i: int| start[i] + news[i]));
            }
            return 0;
        }
        proof {
            lemma_columns_error(dts, news);
            assert forall|i: int| 0 <= i < arrays@.len() implies encoding::acceptable(
                dts[i],
                #[trigger] news[i],
            ) by {
                lemma_column_error(dts[i], news[i]);
                assert forall|j: int| 0 <= j < news[i].len() implies values::cell_error(
                    dts[i],
                    #[trigger] news[i][j],
                ) is None && values::cell_fits(news[i][j]) by {
                    assert(news[i][j] == arrays@[i]@[j]@);
                }
            }
        }
        let mut total_size: u128 = 0;
        let mut i: usize = 0;
        let max_dict_total_bytes: usize = self.max_dict_total_bytes;
        let max_dict_entries: usize = self.max_dict_entries;
        let row_base: usize = self.num_rows;
        proof {
            assert(news.take(0) =~= Seq::<Seq<CellView>>::empty());
        }
        while i < arrays.len()
            invariant
                i <= arrays@.len() == self.columns@.len(),
                arrays@.len() == dts.len(),
                news == columns(arrays@),
                dts == self.types(),
                limits == self.limits(),
                limits.total_bytes == max_dict_total_bytes,
                limits.entries == max_dict_entries,
                max_dict_entries <= u32::MAX,
                self.max_dict_entries == max_dict_entries,
                self.num_rows == row_base,
                num_new_rows == arrays@[0]@.len(),
                forall|k: int|
                    0 <= k < arrays@.len() ==> (#[trigger] arrays@[k])@.len() == arrays@[0]@.len(),
                forall|k: int|
                    0 <= k < arrays@.len() ==> encoding::acceptable(dts[k], #[trigger] news[k]),
                self.columns_well_formed(),
                start.len() == arrays@.len(),
                forall|k: int|
                    0 <= k < arrays@.len() ==> (#[trigger] start[k]).len() == row_base,
                forall|k: int|
                    0 <= k < i ==> (#[trigger] self.columns@[k]).rows@ == start[k] + news[k],
                forall|k: int|
                    i <= k < arrays@.len() ==> (#[trigger] self.columns@[k]).rows@ == start[k],
                total_size == stored_size(dts, news.take(i as int)),
                total_size <= i * usize::MAX,
                i <= usize::MAX,
                i >= 1 ==> row_base + num_new_rows <= usize::MAX,
            decreases arrays@.len() - i,
        {
            let ghost before = self.columns@;
            assert(self.columns@[i as int].well_formed(limits));
            assert(self.columns@[i as int].data_type == dts[i as int]);
            assert(news[i as int] == values::cells(arrays@[i as int]@));
            let size: usize = self.columns[i].append_column(
                arrays[i],
                max_dict_total_bytes,
                max_dict_entries,
                Ghost(limits),
            );
            proof {
                assert(self.columns@ == before.update(i as int, self.columns@[i as int]));
                assert(self.types() =~= dts);
                assert(news.take(i + 1).drop_last() =~= news.take(i as int));
                assert(news.take(i + 1).last() == news[i as int]);
                assert((i + 1) * usize::MAX == i * usize::MAX + usize::MAX) by (nonlinear_arith);
                assert(i * usize::MAX <= usize::MAX * usize::MAX) by (nonlinear_arith)
                    requires
                        i <= usize::MAX,
                ;
                let c = self.columns@[i as int];
                assert(c.nulls@.len() == c.rows@.len());
            }
            let rows_now: usize = self.columns[i].nulls.len();
            assert(rows_now == row_base + num_new_rows);
            total_size = total_size + size as u128;
            i = i + 1;
        }
        self.num_rows = row_base + num_new_rows;
        proof {
            assert(news.take(i as int) =~= news);
            assert(self.rows() =~= Seq::new(arrays@.len(), |i: int| start[i] + news[i]));
            assert(i * usize::MAX <= usize::MAX * usize::MAX) by (nonlinear_arith)
                requires
                    i <= usize::MAX,
            ;
        }
        let row_overhead: usize = bits::bytes_for_bits(arrays.len());
        estimate(total_size, num_new_rows, row_overhead)
    }

    /// Whether all cells are acceptable.
    pub(crate) fn check_columns(&self, arrays: &Vec<&Vec<Cell>>) -> (r: Result<(), Error>)
        requires
            self.well_formed(),
            arrays@.len() <= self.types().len(),
        ensures
            match columns_error(self.types(), columns(arrays@)) {
                None => r is Ok,
                Some(e) => r == Err::<(), Error>(e),
            },
    {
        let ghost dts = self.types();
        let ghost news = columns(arrays@);
        let mut i: usize = 0;
        assert(news.take(0) =~= Seq::<Seq<CellView>>::empty());
        while i < arrays.len()
            invariant
                i <= arrays@.len() <= dts.len(),
                dts == self.types(),
                news == columns(arrays@),
                columns_error(dts, news.take(i as int)) is None,
            decreases arrays@.len() - i,
        {
            let ghost rows = values::cells(arrays@[i as int]@);
            proof {
                assert(news.take(i + 1).drop_last() =~= news.take(i as int));
                assert(news.take(i + 1).last() == rows);
                assert(rows.take(0) =~= Seq::<CellView>::empty());
                assert(self.columns@[i as int].data_type == dts[i as int]);
            }
            let dt: DataType = self.columns[i].data_type;
            let mut j: usize = 0;
            while j < arrays[i].len()
                invariant
                    i < arrays@.len(),
                    j <= arrays@[i as int]@.len(),
                    rows == values::cells(arrays@[i as int]@),
                    column_error(dt, rows.take(j as int)) is None,
                    dt == dts[i as int],
                    columns_error(dts, news.take(i as int)) is None,
                    news == columns(arrays@),
                    dts == self.types(),
                    arrays@.len() <= dts.len(),
                    news.take(i + 1).drop_last() == news.take(i as int),
                    news.take(i + 1).last() == rows,
                decreases arrays@[i as int]@.len() - j,
            {
                proof {
                    assert(rows.take(j + 1).drop_last() =~= rows.take(j as int));
                    assert(rows.take(j + 1).last() == arrays@[i as int]@[j as int]@);
                }
                match values::check_cell(&dt, &arrays[i][j]) {
                    Ok(()) => {},
                    Err(e) => {
                        proof {
                            lemma_column_error_prefix(dt, rows, j + 1);
                            lemma_columns_error_prefix(dts, news, i + 1);
                            assert(news.take(i + 1).len() - 1 == i);
                        }
                        return Err(e);
                    },
                }
                j = j + 1;
            }
            assert(rows.take(j as int) =~= rows);
            assert(news.take(i + 1).len() - 1 == i);
            i = i + 1;
        }
        assert(news.take(i as int) =~= news);
        Ok(())
    }

    /// The encoding of each column, and whether it has nulls.
    fn compute_encodings(&self) -> (r: (Vec<u8>, Vec<bool>))
        requires
            self.well_formed(),
        ensures
            r.0@ == encoding::kinds(self.types(), self.rows(), self.limits()),
            r.1@ == encoding::null_flags(self.types(), self.rows()),
    {
        let ghost limits = self.limits();
        let mut encodings: Vec<u8> = Vec::new();
        let mut has_nulls: Vec<bool> = Vec::new();
        let mut i: usize = 0;
        while i < self.columns.len()
            invariant
                i <= self.columns@.len(),
                self.well_formed(),
                limits == self.limits(),
                encodings@.len() == i,
                has_nulls@.len() == i,
                forall|j: int|
                    0 <= j < i ==> #[trigger] encodings@[j] == encoding::kind(
                        self.types()[j],
                        self.rows()[j],
                        limits,
                    ),
                forall|j: int|
                    0 <= j < i ==> #[trigger] has_nulls@[j] == encoding::has_nulls(
                        self.types()[j],
                        self.rows()[j],
                    ),
            decreases self.columns@.len() - i,
        {
            assert(self.columns@[i as int].well_formed(limits));
            encodings.push(self.columns[i].encoding(self.max_dict_entries, Ghost(limits)));
            has_nulls.push(self.columns[i].has_nulls(Ghost(limits)));
            i = i + 1;
        }
        assert(encodings@ =~= encoding::kinds(self.types(), self.rows(), limits));
        assert(has_nulls@ =~= encoding::null_flags(self.types(), self.rows()));
        (encodings, has_nulls)
    }

    /// The bytes of the bucket; none where no row was written.
    pub fn finish(&self) -> (out: Vec<u8>)
        requires
            self.well_formed(),
        ensures
            self.row_count() == 0 ==> out@ == Seq::<u8>::empty(),
            self.row_count() > 0 ==> out@ == encoding::bucket_bytes(
                self.types(),
                self.rows(),
                self.limits(),
            ),
    {
        if self.num_rows == 0 {
            return Vec::new();
        }
        let ghost dts = self.types();
        let ghost rows = self.rows();
        let ghost limits = self.limits();
        let (encodings, has_nulls): (Vec<u8>, Vec<bool>) = self.compute_encodings();
        let mut out: Vec<u8> = pack_kinds(&encodings);
        let flags: Vec<u8> = bits::pack_bits(&has_nulls);
        bytes::append_bytes(&mut out, &flags);
        assert(out@ =~= encoding::header(dts, rows, limits));
        let n: usize = self.columns.len();
        let ghost consts = encoding::const_parts(dts, rows, limits);
        let ghost dicts = encoding::dict_parts(dts, rows, limits);
        let ghost nulls = encoding::null_parts(dts, rows);
        let ghost datas = encoding::data_parts(dts, rows, limits);

        let ghost base = out@;
        let mut i: usize = 0;
        proof {
            lemma_take_none(base, consts);
        }
        while i < n
            invariant
                i <= n == self.columns@.len(),
                self.well_formed(),
                dts == self.types(),
                rows == self.rows(),
                limits == self.limits(),
                encodings@ == encoding::kinds(dts, rows, limits),
                consts == encoding::const_parts(dts, rows, limits),
                out@ == base + encoding::flat(consts.take(i as int)),
            decreases n - i,
        {
            assert(self.columns@[i as int].well_formed(limits));
            self.columns[i].write_const(&mut out, encodings[i], Ghost(limits));
            proof {
                lemma_take_next(base, consts, i as int, out@);
            }
            i = i + 1;
        }
        assert(consts.take(i as int) =~= consts);

        let ghost base = out@;
        let mut i: usize = 0;
        proof {
            lemma_take_none(base, dicts);
        }
        while i < n
            invariant
                i <= n == self.columns@.len(),
                self.well_formed(),
                dts == self.types(),
                rows == self.rows(),
                limits == self.limits(),
                encodings@ == encoding::kinds(dts, rows, limits),
                dicts == encoding::dict_parts(dts, rows, limits),
                out@ == base + encoding::flat(dicts.take(i as int)),
            decreases n - i,
        {
            assert(self.columns@[i as int].well_formed(limits));
            self.columns[i].write_dict(&mut out, encodings[i], Ghost(limits));
            proof {
                lemma_take_next(base, dicts, i as int, out@);
            }
            i = i + 1;
        }
        assert(dicts.take(i as int) =~= dicts);

        let ghost base = out@;
        let mut i: usize = 0;
        proof {
            lemma_take_none(base, nulls);
        }
        while i < n
            invariant
                i <= n == self.columns@.len(),
                self.well_formed(),
                dts == self.types(),
                rows == self.rows(),
                limits == self.limits(),
                nulls == encoding::null_parts(dts, rows),
                out@ == base + encoding::flat(nulls.take(i as int)),
            decreases n - i,
        {
            assert(self.columns@[i as int].well_formed(limits));
            self.columns[i].write_nulls(&mut out, Ghost(limits));
            proof {
                lemma_take_next(base, nulls, i as int, out@);
            }
            i = i + 1;
        }
        assert(nulls.take(i as int) =~= nulls);

        let ghost base = out@;
        let mut i: usize = 0;
        proof {
            lemma_take_none(base, datas);
        }
        while i < n
            invariant
                i <= n == self.columns@.len(),
                self.well_formed(),
                dts == self.types(),
                rows == self.rows(),
                limits == self.limits(),
                encodings@ == encoding::kinds(dts, rows, limits),
                datas == encoding::data_parts(dts, rows, limits),
                out@ == base + encoding::flat(datas.take(i as int)),
            decreases n - i,
        {
            assert(self.columns@[i as int].well_formed(limits));
            self.columns[i].write_data(&mut out, encodings[i], Ghost(limits));
            proof {
                lemma_take_next(base, datas, i as int, out@);
            }
            i = i + 1;
        }
        assert(datas.take(i as int) =~= datas);
        out
    }

    /// The columns of the bucket as pages; nothing where no row was written.
    pub fn finish_paged(&self) -> (out: PagedBucketOutput)
        requires
            self.well_formed(),
        ensures
            self.row_count() == 0 ==> out.encodings@.len() == 0 && out.has_nulls@.len() == 0
                && out.const_data@.len() == 0 && out.column_pages@.len() == 0,
            self.row_count() > 0 ==> out.represents(self.types(), self.rows(), self.limits()),
    {
        if self.num_rows == 0 {
            return PagedBucketOutput {
                encodings: Vec::new(),
                has_nulls: Vec::new(),
                const_data: Vec::new(),
                column_pages: Vec::new(),
            };
        }
        let ghost limits = self.limits();
        let (encodings, has_nulls): (Vec<u8>, Vec<bool>) = self.compute_encodings();
        let mut const_data: Vec<Vec<u8>> = Vec::new();
        let mut column_pages: Vec<Option<Vec<u8>>> = Vec::new();
        let mut i: usize = 0;
        while i < self.columns.len()
            invariant
                i <= self.columns@.len(),
                self.well_formed(),
                limits == self.limits(),
                encodings@ == encoding::kinds(self.types(), self.rows(), limits),
                has_nulls@ == encoding::null_flags(self.types(), self.rows()),
                const_data@.len() == i,
                column_pages@.len() == i,
                forall|j: int|
                    0 <= j < i ==> (#[trigger] const_data@[j])@ == encoding::const_part(
                        self.types()[j],
                        self.rows()[j],
                        limits,
                    ),
                forall|j: int|
                    0 <= j < i ==> page_view(#[trigger] column_pages@[j]) == encoding::page(
                        self.types()[j],
                        self.rows()[j],
                        limits,
                    ),
            decreases self.columns@.len() - i,
        {
            assert(self.columns@[i as int].well_formed(limits));
            let ghost dt = self.types()[i as int];
            let ghost rows = self.rows()[i as int];
            let k: u8 = encodings[i];
            let mut constant: Vec<u8> = Vec::new();
            self.columns[i].write_const(&mut constant, k, Ghost(limits));
            assert(constant@ =~= encoding::const_part(dt, rows, limits));
            let page: Option<Vec<u8>> = if k == ENCODING_ALL_NULL || (k == ENCODING_CONST
                && !has_nulls[i]) {
                None
            } else {
                let mut page: Vec<u8> = Vec::new();
                self.columns[i].write_dict(&mut page, k, Ghost(limits));
                self.columns[i].write_nulls(&mut page, Ghost(limits));
                self.columns[i].write_data(&mut page, k, Ghost(limits));
                assert(page@ =~= encoding::dict_part(dt, rows, limits) + encoding::null_part(
                    dt,
                    rows,
                ) + encoding::data_part(dt, rows, limits));
                Some(page)
            };
            const_data.push(constant);
            column_pages.push(page);
            i = i + 1;
        }
        PagedBucketOutput { encodings, has_nulls, const_data, column_pages }
    }

    /// Forgets all rows.
    pub fn reset(&mut self)
        requires
            old(self).well_formed(),
        ensures
            final(self).well_formed(),
            final(self).types() == old(self).types(),
            final(self).limits() == old(self).limits(),
            final(self).row_count() == 0,
            final(self).rows() == Seq::new(
                old(self).types().len(),
                |i: int| Seq::<CellView>::empty(),
            ),
    {
        let ghost dts = self.types();
        let ghost limits = self.limits();
        let mut columns: Vec<ColumnBuffer> = Vec::new();
        let mut i: usize = 0;
        while i < self.columns.len()
            invariant
                i <= self.columns@.len(),
                dts == self.types(),
                columns@.len() == i,
                forall|j: int|
                    0 <= j < i ==> (#[trigger] columns@[j]).well_formed(limits)
                        && columns@[j].data_type == dts[j] && columns@[j].rows@
                        == Seq::<CellView>::empty(),
            decreases self.columns@.len() - i,
        {
            columns.push(ColumnBuffer::new(self.columns[i].data_type, Ghost(limits)));
            i = i + 1;
        }
        self.columns = columns;
        self.num_rows = 0;
        assert(self.types() =~= dts);
        assert(self.rows() =~= Seq::new(dts.len(), |i: int| Seq::<CellView>::empty()));
    }

    /// The size of the bucket with the given encodings, or the largest number where
    /// that is more.
    fn compute_out_size(&self, encodings: &Vec<u8>) -> (size: usize)
        requires
            self.well_formed(),
            encodings@ == encoding::kinds(self.types(), self.rows(), self.limits()),
        ensures
            size == capped(
                encoding::bucket_bytes(self.types(), self.rows(), self.limits()).len() as int,
            ),
    {
        let ghost dts = self.types();
        let ghost rows = self.rows();
        let ghost limits = self.limits();
        let n: usize = self.columns.len();
        let header: u128 = (n as u128 * 2 + 7) / 8 + (n as u128 + 7) / 8;
        let mut size: usize = cap(header);
        let mut i: usize = 0;
        proof {
            assert(header == encoding::header(dts, rows, limits).len());
            assert(columns_size(dts, rows, limits, 0) == 0);
        }
        while i < n
            invariant
                i <= n == self.columns@.len(),
                self.well_formed(),
                dts == self.types(),
                rows == self.rows(),
                limits == self.limits(),
                encodings@ == encoding::kinds(dts, rows, limits),
                size == capped(header + columns_size(dts, rows, limits, i as nat)),
            decreases n - i,
        {
            assert(self.columns@[i as int].well_formed(limits));
            size = size.saturating_add(cap(self.columns[i].part_size(encodings[i], Ghost(limits))));
            i = i + 1;
        }
        proof {
            lemma_bucket_len(dts, rows, limits);
        }
        size
    }

    /// The size of what `finish` returns, or the largest number where that is more.
    pub fn estimated_raw_size(&self) -> (size: usize)
        requires
            self.well_formed(),
        ensures
            self.row_count() == 0 ==> size == 0,
            self.row_count() > 0 ==> size == capped(
                encoding::bucket_bytes(self.types(), self.rows(), self.limits()).len() as int,
            ),
    {
        if self.num_rows == 0 {
            return 0;
        }
        let (encodings, _): (Vec<u8>, Vec<bool>) = self.compute_encodings();
        self.compute_out_size(&encodings)
    }
}

impl PagedBucketOutput {
    /// Whether this is what the columns look like as pages.
    pub open spec fn represents(
        &self,
        dts: Seq<DataType>,
        rows: Seq<Seq<CellView>>,
        limits: Limits,
    ) -> bool {
        &&& self.encodings@ == encoding::kinds(dts, rows, limits)
        &&& self.has_nulls@ == encoding::null_flags(dts, rows)
        &&& self.const_data@.len() == dts.len()
        &&& self.column_pages@.len() == dts.len()
        &&& forall|i: int|
            0 <= i < dts.len() ==> (#[trigger] self.const_data@[i])@ == encoding::const_part(
                dts[i],
                rows[i],
                limits,
            )
        &&& forall|i: int|
            0 <= i < dts.len() ==> page_view(#[trigger] self.column_pages@[i]) == encoding::page(
                dts[i],
                rows[i],
                limits,
            )
    }
}

/// The contents of a page that may be missing.
pub open spec fn page_view(p: Option<Vec<u8>>) -> Option<Seq<u8>> {
    match p {
        Some(v) => Some(v@),
        None => None,
    }
}

pub proof fn lemma_take_none(base: Seq<u8>, parts: Seq<Seq<u8>>)
    ensures
        base == base + encoding::flat(parts.take(0)),
{
    assert(parts.take(0) =~= Seq::<Seq<u8>>::empty());
    assert(base =~= base + encoding::flat(parts.take(0)));
}

pub proof fn lemma_take_next(base: Seq<u8>, parts: Seq<Seq<u8>>, i: int, now: Seq<u8>)
    requires
        0 <= i < parts.len(),
        now == (base + encoding::flat(parts.take(i))) + parts[i],
    ensures
        now == base + encoding::flat(parts.take(i + 1)),
{
    assert(parts.take(i + 1) =~= parts.take(i).push(parts[i]));
    encoding::lemma_flat_push(parts.take(i), parts[i]);
    assert(now =~= base + encoding::flat(parts.take(i + 1)));
}

proof fn lemma_column_error_prefix(dt: DataType, rows: Seq<CellView>, k: int)
    requires
        0 <= k <= rows.len(),
        column_error(dt, rows.take(k)) is Some,
    ensures
        column_error(dt, rows) == column_error(dt, rows.take(k)),
    decreases rows.len(),
{
    if k < rows.len() {
        assert(rows.drop_last().take(k) =~= rows.take(k));
        lemma_column_error_prefix(dt, rows.drop_last(), k);
    } else {
        assert(rows.take(k) =~= rows);
    }
}

proof fn lemma_columns_error_prefix(dts: Seq<DataType>, rows: Seq<Seq<CellView>>, k: int)
    requires
        0 <= k <= rows.len(),
        columns_error(dts, rows.take(k)) is Some,
    ensures
        columns_error(dts, rows) == columns_error(dts, rows.take(k)),
    decreases rows.len(),
{
    if k < rows.len() {
        assert(rows.drop_last().take(k) =~= rows.take(k));
        lemma_columns_error_prefix(dts, rows.drop_last(), k);
    } else {
        assert(rows.take(k) =~= rows);
    }
}

/// `stored + rows * overhead`, or the largest number where that is more.
fn estimate(stored: u128, rows: usize, overhead: usize) -> (n: usize)
    requires
        stored <= usize::MAX * usize::MAX,
        overhead <= usize::MAX / 8 + 1,
    ensures
        n == capped(stored + rows * overhead),
{
    assert(rows * overhead <= usize::MAX * (usize::MAX / 8 + 1)) by (nonlinear_arith)
        requires
            rows <= usize::MAX,
            overhead <= usize::MAX / 8 + 1,
    ;
    if stored > usize::MAX as u128 {
        assert(rows * overhead >= 0) by (nonlinear_arith);
        return usize::MAX;
    }
    let total: u128 = stored + rows as u128 * overhead as u128;
    if total > usize::MAX as u128 {
        usize::MAX
    } else {
        total as usize
    }
}

/// Packs the encodings of the columns, two bits each.
fn pack_kinds(encodings: &Vec<u8>) -> (out: Vec<u8>)
    ensures
        out@ == bits::packed(encoding::kind_bits(encodings@)),
{
    let mut all: Vec<bool> = Vec::new();
    let mut i: usize = 0;
    while i < encodings.len()
        invariant
            i <= encodings@.len(),
            all@ == encoding::kind_bits(encodings@).take(2 * i),
        decreases encodings@.len() - i,
    {
        all.push(encodings[i] % 2 == 1);
        all.push(encodings[i] / 2 % 2 == 1);
        i = i + 1;
        assert(all@ =~= encoding::kind_bits(encodings@).take(2 * i));
    }
    assert(encoding::kind_bits(encodings@).take(2 * i) =~= encoding::kind_bits(encodings@));
    bits::pack_bits(&all)
}

} // verus!
