//! What the bytes of a bucket or of a column page mean.

use crate::bits;
use crate::error::Error;
use crate::format::{ENCODING_ALL_NULL, ENCODING_CONST, ENCODING_DICT, ENCODING_PLAIN};
use crate::types;
use crate::types::DataType;
use crate::values;
use crate::values::{CellView, ValueView};
use crate::varint;
use vstd::prelude::*;

verus! {

/// The encodings of `n` columns, two bits each.
pub open spec fn kinds_at(s: Seq<u8>, n: nat) -> Seq<u8> {
    Seq::new(
        n,
        |i: int|
            ((if bits::bit_at(s, 2 * i) {
                1int
            } else {
                0int
            }) + (if bits::bit_at(s, 2 * i + 1) {
                2int
            } else {
                0int
            })) as u8,
    )
}

/// How many of the first `n` bits are set.
pub open spec fn ones(bitmap: Seq<u8>, n: nat) -> nat
    decreases n,
{
    if n == 0 {
        0
    } else {
        ones(bitmap, (n - 1) as nat) + (if bits::bit_at(bitmap, n - 1) {
            1nat
        } else {
            0nat
        })
    }
}

/// How many rows of a column hold a value.
pub open spec fn non_null(flag: bool, bitmap: Seq<u8>, num_rows: nat) -> int {
    if flag {
        num_rows - ones(bitmap, num_rows)
    } else {
        num_rows as int
    }
}

/// The constants of the columns from `i` on, behind those in `acc`, and the
/// position behind them.
pub open spec fn consts_from(
    dts: Seq<DataType>,
    kinds: Seq<u8>,
    s: Seq<u8>,
    i: int,
    p: int,
    acc: Seq<ValueView>,
) -> Result<(Seq<ValueView>, int), Error>
    decreases dts.len() - i,
{
    if i >= dts.len() {
        Ok((acc, p))
    } else if kinds[i] == ENCODING_CONST {
        match values::value_at(dts[i], s, p, Error::BucketTruncated) {
            Err(e) => Err(e),
            Ok((v, size)) => consts_from(dts, kinds, s, i + 1, p + size, acc.push(v)),
        }
    } else {
        consts_from(dts, kinds, s, i + 1, p, acc.push(ValueView::Null))
    }
}

/// `n` values at `p`, behind those in `acc`, and the position behind them.
pub open spec fn entries_from(
    dt: DataType,
    s: Seq<u8>,
    n: nat,
    p: int,
    acc: Seq<ValueView>,
    short: Error,
) -> Result<(Seq<ValueView>, int), Error>
    decreases n,
{
    if n == 0 {
        Ok((acc, p))
    } else {
        match values::value_at(dt, s, p, short) {
            Err(e) => Err(e),
            Ok((v, size)) => entries_from(dt, s, (n - 1) as nat, p + size, acc.push(v), short),
        }
    }
}

/// The table of distinct values at `p`, and the position behind it.
pub open spec fn dict_at(dt: DataType, s: Seq<u8>, p: int, short: Error) -> Result<
    (Seq<ValueView>, int),
    Error,
> {
    match varint::parse_u32(s, p) {
        Err(e) => Err(e),
        Ok(n) => entries_from(
            dt,
            s,
            n as nat,
            varint::parse_end(s, p, 5),
            Seq::empty(),
            short,
        ),
    }
}

/// The tables of the columns from `i` on, behind those in `acc`, and the position
/// behind them.
pub open spec fn dicts_from(
    dts: Seq<DataType>,
    kinds: Seq<u8>,
    s: Seq<u8>,
    i: int,
    p: int,
    acc: Seq<Seq<ValueView>>,
) -> Result<(Seq<Seq<ValueView>>, int), Error>
    decreases dts.len() - i,
{
    if i >= dts.len() {
        Ok((acc, p))
    } else if kinds[i] == ENCODING_DICT {
        match dict_at(dts[i], s, p, Error::BucketTruncated) {
            Err(e) => Err(e),
            Ok((d, q)) => dicts_from(dts, kinds, s, i + 1, q, acc.push(d)),
        }
    } else {
        dicts_from(dts, kinds, s, i + 1, p, acc.push(Seq::empty()))
    }
}

/// The null bitmaps of the columns from `i` on, behind those in `acc`, and the
/// position behind them.
pub open spec fn bitmaps_from(
    kinds: Seq<u8>,
    flags: Seq<bool>,
    s: Seq<u8>,
    num_rows: nat,
    i: int,
    p: int,
    acc: Seq<Seq<u8>>,
) -> Result<(Seq<Seq<u8>>, int), Error>
    decreases kinds.len() - i,
{
    let size = bits::byte_count(num_rows as int);
    if i >= kinds.len() {
        Ok((acc, p))
    } else if flags[i] && kinds[i] != ENCODING_ALL_NULL {
        if p + size > s.len() {
            Err(Error::BucketTruncated)
        } else {
            bitmaps_from(
                kinds,
                flags,
                s,
                num_rows,
                i + 1,
                p + size,
                acc.push(s.subrange(p, p + size)),
            )
        }
    } else {
        bitmaps_from(kinds, flags, s, num_rows, i + 1, p, acc.push(Seq::empty()))
    }
}

/// The position behind `n` variable-length values at `p`; `short` is the error
/// for one that is cut off.
pub open spec fn skip_variable(s: Seq<u8>, n: nat, p: int, short: Error) -> Result<int, Error>
    decreases n,
{
    if n == 0 {
        Ok(p)
    } else {
        let q = varint::parse_end(s, p, 5);
        match varint::parse_u32(s, p) {
            Err(e) => Err(e),
            Ok(len) => if q + len > s.len() {
                Err(short)
            } else {
                skip_variable(s, (n - 1) as nat, q + len, short)
            },
        }
    }
}

/// The position behind the `count` plain values of a column at `p`; the errors
/// are those for values of a fixed and of a variable length that are cut off.
pub open spec fn skip_plain(
    dt: DataType,
    s: Seq<u8>,
    count: int,
    p: int,
    short_fixed: Error,
    short_variable: Error,
) -> Result<int, Error> {
    let w = types::width(dt);
    if w > 0 {
        if p + count * w > s.len() {
            Err(short_fixed)
        } else {
            Ok(p + count * w)
        }
    } else {
        skip_variable(s, count as nat, p, short_variable)
    }
}

/// The position behind the data of a column at `p`.
pub open spec fn skip_column(
    dt: DataType,
    kind: u8,
    s: Seq<u8>,
    count: int,
    entries: nat,
    p: int,
) -> Result<int, Error> {
    if kind == ENCODING_PLAIN {
        skip_plain(dt, s, count, p, Error::BucketTruncated, Error::BucketTruncated)
    } else if kind == ENCODING_DICT {
        let size = bits::byte_count(count * bits::width_for(entries));
        if p + size > s.len() {
            Err(Error::BucketTruncated)
        } else {
            Ok(p + size)
        }
    } else {
        Ok(p)
    }
}

/// Where the data of the columns from `i` on starts, behind the positions in
/// `acc`.
pub open spec fn cursors_from(
    dts: Seq<DataType>,
    kinds: Seq<u8>,
    flags: Seq<bool>,
    dicts: Seq<Seq<ValueView>>,
    bitmaps: Seq<Seq<u8>>,
    s: Seq<u8>,
    num_rows: nat,
    i: int,
    p: int,
    acc: Seq<int>,
) -> Result<Seq<int>, Error>
    decreases dts.len() - i,
{
    if i >= dts.len() {
        Ok(acc)
    } else {
        let count = if flags[i] && kinds[i] == ENCODING_ALL_NULL {
            0
        } else {
            non_null(flags[i], bitmaps[i], num_rows)
        };
        match skip_column(dts[i], kinds[i], s, count, dicts[i].len(), p) {
            Err(e) => Err(e),
            Ok(q) => cursors_from(
                dts,
                kinds,
                flags,
                dicts,
                bitmaps,
                s,
                num_rows,
                i + 1,
                q,
                acc.push(p),
            ),
        }
    }
}

/// What the bytes of a bucket say of its columns.
pub struct BucketInfo {
    pub kinds: Seq<u8>,
    pub flags: Seq<bool>,
    pub consts: Seq<ValueView>,
    pub dicts: Seq<Seq<ValueView>>,
    pub bitmaps: Seq<Seq<u8>>,
    pub cursors: Seq<int>,
}

/// The size of the first header bitmap of `n` columns.
pub open spec fn kinds_size(n: nat) -> int {
    bits::byte_count(2 * n as int)
}

/// The size of both header bitmaps of `n` columns.
pub open spec fn header_size(n: nat) -> int {
    kinds_size(n) + bits::byte_count(n as int)
}

/// The columns that the bytes of a bucket describe.
pub open spec fn parse_bucket(dts: Seq<DataType>, s: Seq<u8>, num_rows: nat) -> Result<
    BucketInfo,
    Error,
> {
    let n = dts.len();
    let kinds = kinds_at(s, n);
    let flags = bits::bits_at(s, 8 * kinds_size(n), n);
    if header_size(n) > s.len() {
        Err(Error::BucketTruncated)
    } else {
        match consts_from(dts, kinds, s, 0, header_size(n), Seq::empty()) {
            Err(e) => Err(e),
            Ok((consts, p1)) => match dicts_from(dts, kinds, s, 0, p1, Seq::empty()) {
                Err(e) => Err(e),
                Ok((dicts, p2)) => match bitmaps_from(
                    kinds,
                    flags,
                    s,
                    num_rows,
                    0,
                    p2,
                    Seq::empty(),
                ) {
                    Err(e) => Err(e),
                    Ok((bitmaps, p3)) => match cursors_from(
                        dts,
                        kinds,
                        flags,
                        dicts,
                        bitmaps,
                        s,
                        num_rows,
                        0,
                        p3,
                        Seq::empty(),
                    ) {
                        Err(e) => Err(e),
                        Ok(cursors) => Ok(
                            BucketInfo { kinds, flags, consts, dicts, bitmaps, cursors },
                        ),
                    },
                },
            },
        }
    }
}

/// The stored values of a constant column, row by row.
pub open spec fn const_values(
    constant: ValueView,
    flag: bool,
    bitmap: Seq<u8>,
    num_rows: nat,
) -> Seq<Option<ValueView>> {
    Seq::new(
        num_rows,
        |i: int| if flag && bits::bit_at(bitmap, i) {
            None
        } else {
            Some(constant)
        },
    )
}

/// The stored values of the rows from `i` on of a column of indices, behind those
/// in `acc`; the next index is at bit `p`.
pub open spec fn dict_values_from(
    dict: Seq<ValueView>,
    flag: bool,
    bitmap: Seq<u8>,
    s: Seq<u8>,
    num_rows: nat,
    i: int,
    p: int,
    acc: Seq<Option<ValueView>>,
) -> Result<Seq<Option<ValueView>>, Error>
    decreases num_rows - i,
{
    let w = bits::width_for(dict.len());
    if i >= num_rows {
        Ok(acc)
    } else if flag && bits::bit_at(bitmap, i) {
        dict_values_from(dict, flag, bitmap, s, num_rows, i + 1, p, acc.push(None))
    } else if p + w > 8 * s.len() {
        Err(Error::BucketTruncated)
    } else {
        let place = bits::bits_value(bits::bits_at(s, p, w));
        if place >= dict.len() {
            Err(Error::CorruptDictIndex)
        } else {
            dict_values_from(
                dict,
                flag,
                bitmap,
                s,
                num_rows,
                i + 1,
                p + w,
                acc.push(Some(dict[place as int])),
            )
        }
    }
}

/// The stored values of the rows from `i` on of a plain column, behind those in
/// `acc`; the next value is at `p`.
pub open spec fn plain_values_from(
    dt: DataType,
    flag: bool,
    bitmap: Seq<u8>,
    s: Seq<u8>,
    num_rows: nat,
    i: int,
    p: int,
    acc: Seq<Option<ValueView>>,
) -> Result<Seq<Option<ValueView>>, Error>
    decreases num_rows - i,
{
    if i >= num_rows {
        Ok(acc)
    } else if flag && bits::bit_at(bitmap, i) {
        plain_values_from(dt, flag, bitmap, s, num_rows, i + 1, p, acc.push(None))
    } else {
        match values::value_at(dt, s, p, Error::BucketTruncated) {
            Err(e) => Err(e),
            Ok((v, size)) => plain_values_from(
                dt,
                flag,
                bitmap,
                s,
                num_rows,
                i + 1,
                p + size,
                acc.push(Some(v)),
            ),
        }
    }
}

/// The cells that stored values stand for: the values from `i` on, behind the
/// cells in `acc`.
pub open spec fn cells_from(
    dt: DataType,
    stored: Seq<Option<ValueView>>,
    i: int,
    acc: Seq<CellView>,
) -> Result<Seq<CellView>, Error>
    decreases stored.len() - i,
{
    if i >= stored.len() {
        Ok(acc)
    } else {
        match stored[i] {
            None => cells_from(dt, stored, i + 1, acc.push(CellView::Null)),
            Some(v) => match values::cell_of(dt, v) {
                Err(e) => Err(e),
                Ok(c) => cells_from(dt, stored, i + 1, acc.push(c)),
            },
        }
    }
}

/// A column of nulls.
pub open spec fn null_column(num_rows: nat) -> Seq<CellView> {
    Seq::new(num_rows, |i: int| CellView::Null)
}

/// The cells of a column. One of an unknown encoding has no cells.
pub open spec fn column_cells(
    dt: DataType,
    kind: u8,
    flag: bool,
    bitmap: Seq<u8>,
    constant: ValueView,
    dict: Seq<ValueView>,
    s: Seq<u8>,
    cursor: int,
    num_rows: nat,
) -> Result<Seq<CellView>, Error> {
    if kind == ENCODING_ALL_NULL {
        Ok(null_column(num_rows))
    } else if kind == ENCODING_CONST {
        cells_from(dt, const_values(constant, flag, bitmap, num_rows), 0, Seq::empty())
    } else if kind == ENCODING_DICT {
        match dict_values_from(
            dict,
            flag,
            bitmap,
            s,
            num_rows,
            0,
            8 * cursor,
            Seq::empty(),
        ) {
            Err(e) => Err(e),
            Ok(stored) => cells_from(dt, stored, 0, Seq::empty()),
        }
    } else if kind == ENCODING_PLAIN {
        match plain_values_from(dt, flag, bitmap, s, num_rows, 0, cursor, Seq::empty()) {
            Err(e) => Err(e),
            Ok(stored) => cells_from(dt, stored, 0, Seq::empty()),
        }
    } else if num_rows == 0 {
        Ok(Seq::empty())
    } else {
        Err(Error::UnknownEncoding)
    }
}

/// The cells of one column of a bucket.
pub open spec fn bucket_column(
    dts: Seq<DataType>,
    info: BucketInfo,
    s: Seq<u8>,
    num_rows: nat,
    i: int,
) -> Result<Seq<CellView>, Error> {
    column_cells(
        dts[i],
        info.kinds[i],
        info.flags[i],
        info.bitmaps[i],
        info.consts[i],
        info.dicts[i],
        s,
        info.cursors[i],
        num_rows,
    )
}

/// The cells of the columns of a bucket from `i` on, behind those in `acc`.
pub open spec fn columns_from(
    dts: Seq<DataType>,
    info: BucketInfo,
    s: Seq<u8>,
    num_rows: nat,
    i: int,
    acc: Seq<Seq<CellView>>,
) -> Result<Seq<Seq<CellView>>, Error>
    decreases dts.len() - i,
{
    if i >= dts.len() {
        Ok(acc)
    } else {
        match bucket_column(dts, info, s, num_rows, i) {
            Err(e) => Err(e),
            Ok(c) => columns_from(dts, info, s, num_rows, i + 1, acc.push(c)),
        }
    }
}

/// The cells of all columns of a bucket.
pub open spec fn bucket_columns(
    dts: Seq<DataType>,
    info: BucketInfo,
    s: Seq<u8>,
    num_rows: nat,
) -> Result<Seq<Seq<CellView>>, Error> {
    columns_from(dts, info, s, num_rows, 0, Seq::empty())
}

/// What the bytes of a column page say of its column.
pub struct PageInfo {
    pub dict: Seq<ValueView>,
    pub bitmap: Seq<u8>,
    pub cursor: int,
}

/// The null bitmap of a page at `p`, if it has one, and the position behind it.
pub open spec fn page_bitmap(flag: bool, s: Seq<u8>, num_rows: nat, p: int) -> Result<
    (Seq<u8>, int),
    Error,
> {
    let size = bits::byte_count(num_rows as int);
    if !flag {
        Ok((Seq::empty(), p))
    } else if p + size > s.len() {
        Err(Error::PageNullBitmap)
    } else {
        Ok((s.subrange(p, p + size), p + size))
    }
}

/// The column that the bytes of a page from `start` on describe.
pub open spec fn parse_page(
    dt: DataType,
    kind: u8,
    flag: bool,
    s: Seq<u8>,
    start: int,
    num_rows: nat,
) -> Result<PageInfo, Error> {
    if start > s.len() {
        Err(Error::PageStart)
    } else if kind == ENCODING_CONST {
        match page_bitmap(flag, s, num_rows, start) {
            Err(e) => Err(e),
            Ok((bitmap, _)) => Ok(PageInfo { dict: Seq::empty(), bitmap, cursor: start }),
        }
    } else if kind == ENCODING_DICT {
        match dict_at(dt, s, start, Error::PageTruncated) {
            Err(e) => Err(e),
            Ok((dict, p1)) => match page_bitmap(flag, s, num_rows, p1) {
                Err(e) => Err(e),
                Ok((bitmap, p2)) => {
                    let count = non_null(flag, bitmap, num_rows);
                    if p2 + bits::byte_count(count * bits::width_for(dict.len())) > s.len() {
                        Err(Error::PageDictIndices)
                    } else {
                        Ok(PageInfo { dict, bitmap, cursor: p2 })
                    }
                },
            },
        }
    } else if kind == ENCODING_PLAIN {
        match page_bitmap(flag, s, num_rows, start) {
            Err(e) => Err(e),
            Ok((bitmap, p1)) => match skip_plain(
                dt,
                s,
                non_null(flag, bitmap, num_rows),
                p1,
                Error::PagePlainFixed,
                Error::PagePlainVariable,
            ) {
                Err(e) => Err(e),
                Ok(_) => Ok(PageInfo { dict: Seq::empty(), bitmap, cursor: p1 }),
            },
        }
    } else {
        Ok(PageInfo { dict: Seq::empty(), bitmap: Seq::empty(), cursor: start })
    }
}

/// The cells of a column page.
pub open spec fn page_cells(
    dt: DataType,
    kind: u8,
    flag: bool,
    constant: ValueView,
    info: PageInfo,
    s: Seq<u8>,
    num_rows: nat,
) -> Result<Seq<CellView>, Error> {
    column_cells(dt, kind, flag, info.bitmap, constant, info.dict, s, info.cursor, num_rows)
}

pub proof fn lemma_ones_bound(bitmap: Seq<u8>, n: nat)
    ensures
        ones(bitmap, n) <= n,
    decreases n,
{
    if n > 0 {
        lemma_ones_bound(bitmap, (n - 1) as nat);
    }
}

proof fn lemma_dict_values_len(
    dict: Seq<ValueView>,
    flag: bool,
    bitmap: Seq<u8>,
    s: Seq<u8>,
    num_rows: nat,
    i: int,
    p: int,
    acc: Seq<Option<ValueView>>,
)
    requires
        0 <= i <= num_rows,
        acc.len() == i,
    ensures
        dict_values_from(dict, flag, bitmap, s, num_rows, i, p, acc) is Ok ==> dict_values_from(
            dict,
            flag,
            bitmap,
            s,
            num_rows,
            i,
            p,
            acc,
        )->Ok_0.len() == num_rows,
    decreases num_rows - i,
{
    let w = bits::width_for(dict.len());
    if i < num_rows {
        if flag && bits::bit_at(bitmap, i) {
            lemma_dict_values_len(dict, flag, bitmap, s, num_rows, i + 1, p, acc.push(None));
        } else {
            let place = bits::bits_value(bits::bits_at(s, p, w));
            lemma_dict_values_len(
                dict,
                flag,
                bitmap,
                s,
                num_rows,
                i + 1,
                p + w,
                acc.push(Some(dict[place as int])),
            );
        }
    }
}

proof fn lemma_plain_values_len(
    dt: DataType,
    flag: bool,
    bitmap: Seq<u8>,
    s: Seq<u8>,
    num_rows: nat,
    i: int,
    p: int,
    acc: Seq<Option<ValueView>>,
)
    requires
        0 <= i <= num_rows,
        acc.len() == i,
    ensures
        plain_values_from(dt, flag, bitmap, s, num_rows, i, p, acc) is Ok ==> plain_values_from(
            dt,
            flag,
            bitmap,
            s,
            num_rows,
            i,
            p,
            acc,
        )->Ok_0.len() == num_rows,
    decreases num_rows - i,
{
    if i < num_rows {
        if flag && bits::bit_at(bitmap, i) {
            lemma_plain_values_len(dt, flag, bitmap, s, num_rows, i + 1, p, acc.push(None));
        } else if let Ok((v, size)) = values::value_at(dt, s, p, Error::BucketTruncated) {
            lemma_plain_values_len(
                dt,
                flag,
                bitmap,
                s,
                num_rows,
                i + 1,
                p + size,
                acc.push(Some(v)),
            );
        }
    }
}

proof fn lemma_cells_len(
    dt: DataType,
    stored: Seq<Option<ValueView>>,
    i: int,
    acc: Seq<CellView>,
)
    requires
        0 <= i <= stored.len(),
        acc.len() == i,
    ensures
        cells_from(dt, stored, i, acc) is Ok ==> cells_from(dt, stored, i, acc)->Ok_0.len()
            == stored.len(),
    decreases stored.len() - i,
{
    if i < stored.len() {
        match stored[i] {
            None => {
                lemma_cells_len(dt, stored, i + 1, acc.push(CellView::Null));
            },
            Some(v) => {
                if let Ok(c) = values::cell_of(dt, v) {
                    lemma_cells_len(dt, stored, i + 1, acc.push(c));
                }
            },
        }
    }
}

/// A column that is read has a cell for each row.
pub proof fn lemma_column_len(
    dt: DataType,
    kind: u8,
    flag: bool,
    bitmap: Seq<u8>,
    constant: ValueView,
    dict: Seq<ValueView>,
    s: Seq<u8>,
    cursor: int,
    num_rows: nat,
)
    ensures
        column_cells(dt, kind, flag, bitmap, constant, dict, s, cursor, num_rows) is Ok
            ==> column_cells(
            dt,
            kind,
            flag,
            bitmap,
            constant,
            dict,
            s,
            cursor,
            num_rows,
        )->Ok_0.len() == num_rows,
{
    if kind == ENCODING_CONST {
        lemma_cells_len(dt, const_values(constant, flag, bitmap, num_rows), 0, Seq::empty());
    } else if kind == ENCODING_DICT {
        let stored = dict_values_from(
            dict,
            flag,
            bitmap,
            s,
            num_rows,
            0,
            8 * cursor,
            Seq::empty(),
        );
        lemma_dict_values_len(dict, flag, bitmap, s, num_rows, 0, 8 * cursor, Seq::empty());
        if stored is Ok {
            lemma_cells_len(dt, stored->Ok_0, 0, Seq::empty());
        }
    } else if kind != ENCODING_ALL_NULL {
        let stored = plain_values_from(
            dt,
            flag,
            bitmap,
            s,
            num_rows,
            0,
            cursor,
            Seq::empty(),
        );
        lemma_plain_values_len(dt, flag, bitmap, s, num_rows, 0, cursor, Seq::empty());
        if stored is Ok {
            lemma_cells_len(dt, stored->Ok_0, 0, Seq::empty());
        }
    }
}

proof fn lemma_columns_len(
    dts: Seq<DataType>,
    info: BucketInfo,
    s: Seq<u8>,
    num_rows: nat,
    i: int,
    acc: Seq<Seq<CellView>>,
)
    requires
        0 <= i <= dts.len(),
        acc.len() == i,
        forall|j: int| 0 <= j < acc.len() ==> (#[trigger] acc[j]).len() == num_rows,
    ensures
        match columns_from(dts, info, s, num_rows, i, acc) {
            Ok(cs) => cs.len() == dts.len() && forall|j: int|
                0 <= j < cs.len() ==> (#[trigger] cs[j]).len() == num_rows,
            Err(_) => true,
        },
    decreases dts.len() - i,
{
    if i < dts.len() {
        lemma_column_len(
            dts[i],
            info.kinds[i],
            info.flags[i],
            info.bitmaps[i],
            info.consts[i],
            info.dicts[i],
            s,
            info.cursors[i],
            num_rows,
        );
        if let Ok(c) = bucket_column(dts, info, s, num_rows, i) {
            lemma_columns_len(dts, info, s, num_rows, i + 1, acc.push(c));
        }
    }
}

/// The columns of a bucket have a cell for each row.
pub proof fn lemma_bucket_columns_len(
    dts: Seq<DataType>,
    info: BucketInfo,
    s: Seq<u8>,
    num_rows: nat,
)
    ensures
        match bucket_columns(dts, info, s, num_rows) {
            Ok(cs) => cs.len() == dts.len() && forall|j: int|
                0 <= j < cs.len() ==> (#[trigger] cs[j]).len() == num_rows,
            Err(_) => true,
        },
{
    lemma_columns_len(dts, info, s, num_rows, 0, Seq::empty());
}

} // verus!
