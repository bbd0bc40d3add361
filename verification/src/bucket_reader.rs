//! Decodes buckets and column pages.

use crate::bits;
use crate::bytes;
use crate::decoding;
use crate::decoding::{BucketInfo, PageInfo};
use crate::error::Error;
use crate::format::{ENCODING_ALL_NULL, ENCODING_CONST, ENCODING_DICT, ENCODING_PLAIN};
use crate::types;
use crate::types::DataType;
use crate::values;
use crate::values::{Cell, CellView, Value, ValueView};
use crate::varint;
use vstd::prelude::*;

verus! {

/// The contents of a value that may be missing.
pub open spec fn stored_view(v: Option<Value>) -> Option<ValueView> {
    match v {
        Some(x) => Some(x@),
        None => None,
    }
}

/// The contents of a list of values that may be missing.
pub open spec fn stored_views(v: Seq<Option<Value>>) -> Seq<Option<ValueView>> {
    Seq::new(v.len(), |i: int| stored_view(v[i]))
}

/// The contents of a list of columns.
pub open spec fn column_views(v: Seq<Vec<Cell>>) -> Seq<Seq<CellView>> {
    Seq::new(v.len(), |i: int| values::cells(v[i]@))
}

/// The contents of a list of tables of values.
pub open spec fn dict_views(v: Seq<Vec<Value>>) -> Seq<Seq<ValueView>> {
    Seq::new(v.len(), |i: int| values::value_views(v[i]@))
}

/// The contents of a list of byte strings.
pub open spec fn bitmap_views(v: Seq<Vec<u8>>) -> Seq<Seq<u8>> {
    Seq::new(v.len(), |i: int| v[i]@)
}

/// The contents of a list of positions.
pub open spec fn position_views(v: Seq<usize>) -> Seq<int> {
    Seq::new(v.len(), |i: int| v[i] as int)
}

/// How many rows of a column hold a value.
fn count_non_null(flag: bool, bitmap: &Vec<u8>, num_rows: usize) -> (n: usize)
    requires
        flag ==> bits::byte_count(num_rows as int) <= bitmap@.len(),
    ensures
        n == decoding::non_null(flag, bitmap@, num_rows as nat),
{
    if !flag {
        return num_rows;
    }
    let mut nulls: usize = 0;
    let mut row: usize = 0;
    while row < num_rows
        invariant
            row <= num_rows,
            bits::byte_count(num_rows as int) <= bitmap@.len(),
            nulls == decoding::ones(bitmap@, row as nat),
            nulls <= row,
        decreases num_rows - row,
    {
        if bits::read_bit(bitmap, 0, row) {
            nulls = nulls + 1;
        }
        row = row + 1;
    }
    num_rows - nulls
}

/// Whether the row is null.
fn is_null(flag: bool, bitmap: &Vec<u8>, row: usize) -> (r: bool)
    requires
        flag ==> row / 8 < bitmap@.len(),
    ensures
        r == (flag && bits::bit_at(bitmap@, row as int)),
{
    flag && bits::read_bit(bitmap, 0, row)
}

/// Reads `w` bits, the lowest first, from bit `bit` of byte `byte` on.
fn read_bit_packed(buf: &[u8], byte: usize, bit: usize, w: usize) -> (v: u64)
    requires
        bit < 8,
        w <= 32,
        8 * byte + bit + w <= 8 * buf@.len(),
    ensures
        v == bits::bits_value(bits::bits_at(buf@, 8 * byte + bit, w as nat)),
{
    let ghost all = bits::bits_at(buf@, 8 * byte + bit, w as nat);
    let mut v: u64 = 0;
    let mut b: usize = w;
    let ghost mut bound: int = 1;
    assert(all.skip(w as int) =~= Seq::<bool>::empty());
    proof {
        vstd::arithmetic::power2::lemma2_to64();
    }
    while b > 0
        invariant
            b <= w <= 32,
            bit < 8,
            8 * byte + bit + w <= 8 * buf@.len(),
            all == bits::bits_at(buf@, 8 * byte + bit, w as nat),
            v == bits::bits_value(all.skip(b as int)),
            v < bound,
            bound == vstd::arithmetic::power2::pow2((w - b) as nat),
        decreases b,
    {
        b = b - 1;
        proof {
            assert(all.skip(b as int).drop_first() =~= all.skip(b + 1));
            assert(all.skip(b as int)[0] == all[b as int]);
            vstd::arithmetic::power2::lemma_pow2_unfold((w - b) as nat);
            vstd::arithmetic::power2::lemma2_to64();
            vstd::arithmetic::power2::lemma_pow2_strictly_increases((w - b - 1) as nat, 33);
            vstd::arithmetic::power2::lemma2_to64_rest();
            assert(byte + (bit + b) as int / 8 < buf@.len());
            assert(8 * byte + (bit + b) == (8 * byte + bit) + b);
            bound = 2 * bound;
        }
        let digit: u64 = if bits::read_bit(buf, byte, bit + b) {
            1
        } else {
            0
        };
        v = 2 * v + digit;
    }
    assert(all.skip(0) =~= all);
    v
}

/// Reads `n` values of the type at `*pos` and moves `*pos` behind them.
fn read_entries(dt: &DataType, buf: &[u8], n: u32, pos: &mut usize, short: Error) -> (r: Result<
    Vec<Value>,
    Error,
>)
    requires
        *old(pos) <= buf@.len(),
    ensures
        match decoding::entries_from(
            *dt,
            buf@,
            n as nat,
            *old(pos) as int,
            Seq::empty(),
            short,
        ) {
            Ok((vs, end)) => r is Ok && values::value_views(r->Ok_0@) == vs && *final(pos) == end
                && end <= buf@.len() && vs.len() == n,
            Err(e) => r is Err && r->Err_0 == e,
        },
{
    let ghost start = *pos as int;
    let mut out: Vec<Value> = Vec::new();
    let mut left: u32 = n;
    assert(values::value_views(out@) =~= Seq::<ValueView>::empty());
    while left > 0
        invariant
            left <= n,
            start == *old(pos),
            *pos <= buf@.len(),
            out@.len() + left == n,
            decoding::entries_from(*dt, buf@, n as nat, start, Seq::empty(), short)
                == decoding::entries_from(
                *dt,
                buf@,
                left as nat,
                *pos as int,
                values::value_views(out@),
                short,
            ),
        decreases left,
    {
        match values::read_value_at(dt, buf, *pos, short) {
            Err(e) => {
                return Err(e);
            },
            Ok((v, size)) => {
                let ghost before = values::value_views(out@);
                assert(buf.len() == buf@.len());
                *pos = *pos + size;
                out.push(v);
                assert(values::value_views(out@) =~= before.push(v@));
            },
        }
        left = left - 1;
    }
    Ok(out)
}

/// Reads a table of distinct values at `*pos` and moves `*pos` behind it.
fn read_dict(dt: &DataType, buf: &[u8], pos: &mut usize, short: Error) -> (r: Result<
    Vec<Value>,
    Error,
>)
    requires
        *old(pos) <= buf@.len(),
    ensures
        match decoding::dict_at(*dt, buf@, *old(pos) as int, short) {
            Ok((vs, end)) => r is Ok && values::value_views(r->Ok_0@) == vs && *final(pos) == end
                && end <= buf@.len() && vs.len() <= u32::MAX,
            Err(e) => r is Err && r->Err_0 == e,
        },
{
    proof {
        varint::lemma_parse_end(buf@, *pos as int, 5);
    }
    match varint::decode(buf, pos) {
        Err(e) => Err(e),
        Ok(n) => read_entries(dt, buf, n, pos, short),
    }
}

/// Moves `*pos` behind `n` variable-length values.
fn skip_variable_values(buf: &[u8], n: usize, pos: &mut usize, short: Error) -> (r: Result<
    (),
    Error,
>)
    requires
        *old(pos) <= buf@.len(),
    ensures
        match decoding::skip_variable(buf@, n as nat, *old(pos) as int, short) {
            Ok(end) => r is Ok && *final(pos) == end && end <= buf@.len(),
            Err(e) => r is Err && r->Err_0 == e,
        },
{
    let ghost start = *pos as int;
    let mut left: usize = n;
    while left > 0
        invariant
            left <= n,
            start == *old(pos),
            *pos <= buf@.len(),
            decoding::skip_variable(buf@, n as nat, start, short) == decoding::skip_variable(
                buf@,
                left as nat,
                *pos as int,
                short,
            ),
        decreases left,
    {
        proof {
            varint::lemma_parse_end(buf@, *pos as int, 5);
        }
        let len: usize = match varint::decode(buf, pos) {
            Err(e) => {
                return Err(e);
            },
            Ok(v) => v as usize,
        };
        if len > buf.len() - *pos {
            return Err(short);
        }
        *pos = *pos + len;
        left = left - 1;
    }
    Ok(())
}

/// Moves `*pos` behind `count` plain values of the type.
fn skip_plain_values(
    dt: &DataType,
    buf: &[u8],
    count: usize,
    pos: &mut usize,
    short_fixed: Error,
    short_variable: Error,
) -> (r: Result<(), Error>)
    requires
        *old(pos) <= buf@.len(),
    ensures
        match decoding::skip_plain(
            *dt,
            buf@,
            count as int,
            *old(pos) as int,
            short_fixed,
            short_variable,
        ) {
            Ok(end) => r is Ok && *final(pos) == end && end <= buf@.len(),
            Err(e) => r is Err && r->Err_0 == e,
        },
{
    let w: i32 = types::fixed_width(dt);
    if w > 0 {
        proof {
            assert(count * (w as int) <= usize::MAX * 12) by (nonlinear_arith)
                requires
                    count <= usize::MAX,
                    0 < w <= 12,
            ;
            assert(count * (w as int) >= 0) by (nonlinear_arith)
                requires
                    w > 0,
            ;
        }
        let size: u128 = count as u128 * w as u128;
        if size > (buf.len() - *pos) as u128 {
            return Err(short_fixed);
        }
        *pos = *pos + size as usize;
        Ok(())
    } else {
        skip_variable_values(buf, count, pos, short_variable)
    }
}

/// The size of `count` indices into a table of `entries` values, if it is at most
/// `room`.
fn packed_indices_size(count: usize, entries: usize, room: usize) -> (r: Option<usize>)
    ensures
        match r {
            Some(n) => n == bits::byte_count(count * bits::width_for(entries as nat)) && n <= room,
            None => bits::byte_count(count * bits::width_for(entries as nat)) > room,
        },
{
    let w: usize = bits::bit_width(entries);
    proof {
        assert(count * w <= usize::MAX * 64) by (nonlinear_arith)
            requires
                count <= usize::MAX,
                w <= 64,
        ;
    }
    let size: u128 = (count as u128 * w as u128 + 7) / 8;
    if size > room as u128 {
        None
    } else {
        Some(size as usize)
    }
}

/// How many rows to make room for at once: none where the data is too short to
/// describe all of them.
fn room_for(num_rows: usize, buf: &[u8]) -> (n: usize)
    ensures
        n == if num_rows as int / 8 <= buf@.len() {
            num_rows as int
        } else {
            0
        },
{
    if num_rows / 8 <= buf.len() {
        num_rows
    } else {
        0
    }
}

/// The stored values of a constant column.
fn read_all_const(constant: &Value, flag: bool, bitmap: &Vec<u8>, num_rows: usize) -> (out: Vec<
    Option<Value>,
>)
    requires
        flag ==> bits::byte_count(num_rows as int) <= bitmap@.len(),
    ensures
        stored_views(out@) == decoding::const_values(
            constant@,
            flag,
            bitmap@,
            num_rows as nat,
        ),
{
    let mut out: Vec<Option<Value>> = Vec::new();
    let mut row: usize = 0;
    while row < num_rows
        invariant
            row <= num_rows,
            flag ==> bits::byte_count(num_rows as int) <= bitmap@.len(),
            out@.len() == row,
            forall|i: int|
                0 <= i < row ==> stored_view(#[trigger] out@[i]) == decoding::const_values(
                    constant@,
                    flag,
                    bitmap@,
                    num_rows as nat,
                )[i],
        decreases num_rows - row,
    {
        if is_null(flag, bitmap, row) {
            out.push(None);
        } else {
            out.push(Some(constant.duplicate()));
        }
        row = row + 1;
    }
    assert(stored_views(out@) =~= decoding::const_values(
        constant@,
        flag,
        bitmap@,
        num_rows as nat,
    ));
    out
}

/// The stored values of a column of indices.
fn read_all_dict(
    buf: &[u8],
    cursor: usize,
    dict: &Vec<Value>,
    flag: bool,
    bitmap: &Vec<u8>,
    num_rows: usize,
) -> (r: Result<Vec<Option<Value>>, Error>)
    requires
        cursor <= buf@.len(),
        dict@.len() <= u32::MAX,
        flag ==> bits::byte_count(num_rows as int) <= bitmap@.len(),
    ensures
        match decoding::dict_values_from(
            values::value_views(dict@),
            flag,
            bitmap@,
            buf@,
            num_rows as nat,
            0,
            8 * cursor as int,
            Seq::empty(),
        ) {
            Ok(vs) => r is Ok && stored_views(r->Ok_0@) == vs,
            Err(e) => r is Err && r->Err_0 == e,
        },
{
    let ghost d = values::value_views(dict@);
    let w: usize = bits::bit_width(dict.len());
    proof {
        vstd::arithmetic::power2::lemma2_to64();
        bits::lemma_width_for_bound(dict@.len(), 32);
    }
    let mut out: Vec<Option<Value>> = Vec::with_capacity(room_for(num_rows, buf));
    let mut row: usize = 0;
    let mut byte: usize = cursor;
    let mut bit: usize = 0;
    assert(stored_views(out@) =~= Seq::<Option<ValueView>>::empty());
    while row < num_rows
        invariant
            row <= num_rows,
            d == values::value_views(dict@),
            w == bits::width_for(d.len()),
            w <= 32,
            bit < 8,
            8 * byte + bit <= 8 * buf@.len(),
            flag ==> bits::byte_count(num_rows as int) <= bitmap@.len(),
            decoding::dict_values_from(
                d,
                flag,
                bitmap@,
                buf@,
                num_rows as nat,
                0,
                8 * cursor as int,
                Seq::empty(),
            ) == decoding::dict_values_from(
                d,
                flag,
                bitmap@,
                buf@,
                num_rows as nat,
                row as int,
                8 * byte + bit,
                stored_views(out@),
            ),
        decreases num_rows - row,
    {
        let ghost before = stored_views(out@);
        if is_null(flag, bitmap, row) {
            out.push(None);
            assert(stored_views(out@) =~= before.push(None));
        } else {
            let need: usize = bits::bytes_for_bits(bit + w);
            if need > buf.len() - byte {
                return Err(Error::BucketTruncated);
            }
            let place: u64 = read_bit_packed(buf, byte, bit, w);
            if place >= dict.len() as u64 {
                return Err(Error::CorruptDictIndex);
            }
            out.push(Some(dict[place as usize].duplicate()));
            assert(stored_views(out@) =~= before.push(Some(d[place as int])));
            byte = byte + (bit + w) / 8;
            bit = (bit + w) % 8;
        }
        row = row + 1;
    }
    Ok(out)
}

/// The stored values of a plain column.
fn read_all_plain(
    dt: &DataType,
    buf: &[u8],
    cursor: usize,
    flag: bool,
    bitmap: &Vec<u8>,
    num_rows: usize,
) -> (r: Result<Vec<Option<Value>>, Error>)
    requires
        cursor <= buf@.len(),
        flag ==> bits::byte_count(num_rows as int) <= bitmap@.len(),
    ensures
        match decoding::plain_values_from(
            *dt,
            flag,
            bitmap@,
            buf@,
            num_rows as nat,
            0,
            cursor as int,
            Seq::empty(),
        ) {
            Ok(vs) => r is Ok && stored_views(r->Ok_0@) == vs,
            Err(e) => r is Err && r->Err_0 == e,
        },
{
    let mut out: Vec<Option<Value>> = Vec::with_capacity(room_for(num_rows, buf));
    let mut row: usize = 0;
    let mut pos: usize = cursor;
    assert(stored_views(out@) =~= Seq::<Option<ValueView>>::empty());
    while row < num_rows
        invariant
            row <= num_rows,
            pos <= buf@.len(),
            flag ==> bits::byte_count(num_rows as int) <= bitmap@.len(),
            decoding::plain_values_from(
                *dt,
                flag,
                bitmap@,
                buf@,
                num_rows as nat,
                0,
                cursor as int,
                Seq::empty(),
            ) == decoding::plain_values_from(
                *dt,
                flag,
                bitmap@,
                buf@,
                num_rows as nat,
                row as int,
                pos as int,
                stored_views(out@),
            ),
        decreases num_rows - row,
    {
        let ghost before = stored_views(out@);
        if is_null(flag, bitmap, row) {
            out.push(None);
            assert(stored_views(out@) =~= before.push(None));
        } else {
            match values::read_value_at(dt, buf, pos, Error::BucketTruncated) {
                Err(e) => {
                    return Err(e);
                },
                Ok((v, size)) => {
                    assert(buf.len() == buf@.len());
                    pos = pos + size;
                    out.push(Some(v));
                    assert(stored_views(out@) =~= before.push(Some(v@)));
                },
            }
        }
        row = row + 1;
    }
    Ok(out)
}

/// The cells that stored values of the type stand for.
fn build_array(dt: &DataType, stored: Vec<Option<Value>>) -> (r: Result<Vec<Cell>, Error>)
    ensures
        match decoding::cells_from(*dt, stored_views(stored@), 0, Seq::empty()) {
            Ok(cs) => r is Ok && values::cells(r->Ok_0@) == cs,
            Err(e) => r is Err && r->Err_0 == e,
        },
{
    let ghost vs = stored_views(stored@);
    let mut left: Vec<Option<Value>> = stored;
    let mut out: Vec<Cell> = Vec::with_capacity(left.len());
    let mut i: usize = 0;
    assert(values::cells(out@) =~= Seq::<CellView>::empty());
    while i < left.len()
        invariant
            i <= left@.len(),
            vs == stored_views(stored@),
            left@.len() == vs.len(),
            forall|j: int| i <= j < vs.len() ==> vs[j] == stored_view(#[trigger] left@[j]),
            decoding::cells_from(*dt, vs, 0, Seq::empty()) == decoding::cells_from(
                *dt,
                vs,
                i as int,
                values::cells(out@),
            ),
        decreases left@.len() - i,
    {
        let ghost before = values::cells(out@);
        assert(vs[i as int] == stored_view(left@[i as int]));
        let mut item: Option<Value> = None;
        std::mem::swap(&mut item, &mut left[i]);
        match item {
            None => {
                out.push(Cell::Null);
                assert(values::cells(out@) =~= before.push(CellView::Null));
            },
            Some(v) => match values::build_cell(dt, v) {
                Err(e) => {
                    return Err(e);
                },
                Ok(c) => {
                    out.push(c);
                    assert(values::cells(out@) =~= before.push(c@));
                },
            },
        }
        i = i + 1;
    }
    Ok(out)
}

/// A column of nulls.
fn build_all_null_array(num_rows: usize) -> (out: Vec<Cell>)
    ensures
        values::cells(out@) == decoding::null_column(num_rows as nat),
{
    let mut out: Vec<Cell> = Vec::new();
    let mut i: usize = 0;
    while i < num_rows
        invariant
            i <= num_rows,
            out@.len() == i,
            forall|j: int| 0 <= j < i ==> (#[trigger] out@[j])@ == CellView::Null,
        decreases num_rows - i,
    {
        out.push(Cell::Null);
        i = i + 1;
    }
    assert(values::cells(out@) =~= decoding::null_column(num_rows as nat));
    out
}

/// The cells of a column.
fn read_column(
    dt: &DataType,
    kind: u8,
    flag: bool,
    bitmap: &Vec<u8>,
    constant: &Value,
    dict: &Vec<Value>,
    buf: &[u8],
    cursor: usize,
    num_rows: usize,
) -> (r: Result<Vec<Cell>, Error>)
    requires
        cursor <= buf@.len(),
        dict@.len() <= u32::MAX,
        flag && (kind == ENCODING_CONST || kind == ENCODING_DICT || kind == ENCODING_PLAIN)
            ==> bits::byte_count(num_rows as int) <= bitmap@.len(),
    ensures
        match decoding::column_cells(
            *dt,
            kind,
            flag,
            bitmap@,
            constant@,
            values::value_views(dict@),
            buf@,
            cursor as int,
            num_rows as nat,
        ) {
            Ok(cs) => r is Ok && values::cells(r->Ok_0@) == cs,
            Err(e) => r is Err && r->Err_0 == e,
        },
{
    if kind == ENCODING_ALL_NULL {
        return Ok(build_all_null_array(num_rows));
    }
    let stored: Vec<Option<Value>> = if kind == ENCODING_CONST {
        read_all_const(constant, flag, bitmap, num_rows)
    } else if kind == ENCODING_DICT {
        match read_all_dict(buf, cursor, dict, flag, bitmap, num_rows) {
            Err(e) => {
                return Err(e);
            },
            Ok(vs) => vs,
        }
    } else if kind == ENCODING_PLAIN {
        match read_all_plain(dt, buf, cursor, flag, bitmap, num_rows) {
            Err(e) => {
                return Err(e);
            },
            Ok(vs) => vs,
        }
    } else {
        if num_rows > 0 {
            return Err(Error::UnknownEncoding);
        }
        let none: Vec<Cell> = Vec::new();
        assert(values::cells(none@) =~= Seq::<CellView>::empty());
        return Ok(none);
    };
    build_array(dt, stored)
}

/// Reads the columns of a bucket that is stored in one piece.
pub struct BucketReader {
    data: Vec<u8>,
    num_rows: usize,
    col_types: Vec<DataType>,
    encodings: Vec<u8>,
    has_nulls: Vec<bool>,
    null_bitmaps: Vec<Vec<u8>>,
    const_values: Vec<Value>,
    dict_values: Vec<Vec<Value>>,
    data_cursors: Vec<usize>,
}

impl BucketReader {
    /// The types of the columns.
    pub closed spec fn types(&self) -> Seq<DataType> {
        self.col_types@
    }

    /// The bytes of the bucket.
    pub closed spec fn bytes(&self) -> Seq<u8> {
        self.data@
    }

    /// How many rows the bucket has.
    pub closed spec fn row_count(&self) -> nat {
        self.num_rows as nat
    }

    /// What the bytes say of the columns.
    pub closed spec fn info(&self) -> BucketInfo {
        BucketInfo {
            kinds: self.encodings@,
            flags: self.has_nulls@,
            consts: values::value_views(self.const_values@),
            dicts: dict_views(self.dict_values@),
            bitmaps: bitmap_views(self.null_bitmaps@),
            cursors: position_views(self.data_cursors@),
        }
    }

    /// The reader holds what its bytes say, and all positions lie within them.
    pub closed spec fn well_formed(&self) -> bool {
        let n = self.col_types@.len();
        &&& decoding::parse_bucket(self.col_types@, self.data@, self.num_rows as nat) == Ok::<
            BucketInfo,
            Error,
        >(self.info())
        &&& self.encodings@.len() == n
        &&& self.has_nulls@.len() == n
        &&& self.null_bitmaps@.len() == n
        &&& self.const_values@.len() == n
        &&& self.dict_values@.len() == n
        &&& self.data_cursors@.len() == n
        &&& forall|i: int| 0 <= i < n ==> #[trigger] self.data_cursors@[i] <= self.data@.len()
        &&& forall|i: int| 0 <= i < n ==> (#[trigger] self.dict_values@[i])@.len() <= u32::MAX
        &&& forall|i: int|
            0 <= i < n && self.has_nulls@[i] && self.encodings@[i] != ENCODING_ALL_NULL ==> (
            #[trigger] self.null_bitmaps@[i])@.len() == bits::byte_count(self.num_rows as int)
    }

    /// Opens a bucket with columns of the given types and `num_rows` rows.
    pub fn new(col_types: Vec<DataType>, data: Vec<u8>, num_rows: usize) -> (r: Result<
        BucketReader,
        Error,
    >)
        ensures
            match decoding::parse_bucket(col_types@, data@, num_rows as nat) {
                Ok(info) => r is Ok && r->Ok_0.well_formed() && r->Ok_0.info() == info
                    && r->Ok_0.types() == col_types@ && r->Ok_0.bytes() == data@
                    && r->Ok_0.row_count() == num_rows,
                Err(e) => r is Err && r->Err_0 == e,
            },
    {
        let n: usize = col_types.len();
        let ghost dts = col_types@;
        let kinds_size: usize = if n % 4 == 0 {
            n / 4
        } else {
            n / 4 + 1
        };
        let flags_size: usize = bits::bytes_for_bits(n);
        if kinds_size > data.len() || flags_size > data.len() - kinds_size {
            return Err(Error::BucketTruncated);
        }
        let encodings: Vec<u8> = read_kinds(&data, n);
        let has_nulls: Vec<bool> = read_flags(&data, kinds_size, n);
        let mut pos: usize = kinds_size + flags_size;
        let const_values: Vec<Value> = match read_consts(
            &col_types,
            &encodings,
            &data,
            &mut pos,
        ) {
            Err(e) => {
                return Err(e);
            },
            Ok(v) => v,
        };
        let dict_values: Vec<Vec<Value>> = match read_dicts(
            &col_types,
            &encodings,
            &data,
            &mut pos,
        ) {
            Err(e) => {
                return Err(e);
            },
            Ok(v) => v,
        };
        let null_bitmaps: Vec<Vec<u8>> = match read_bitmaps(
            &encodings,
            &has_nulls,
            &data,
            num_rows,
            &mut pos,
        ) {
            Err(e) => {
                return Err(e);
            },
            Ok(v) => v,
        };
        let data_cursors: Vec<usize> = match find_cursors(
            &col_types,
            &encodings,
            &has_nulls,
            &dict_values,
            &null_bitmaps,
            &data,
            num_rows,
            pos,
        ) {
            Err(e) => {
                return Err(e);
            },
            Ok(v) => v,
        };
        Ok(
            BucketReader {
                data,
                num_rows,
                col_types,
                encodings,
                has_nulls,
                null_bitmaps,
                const_values,
                dict_values,
                data_cursors,
            },
        )
    }

    /// The cells of column `i`.
    pub fn read_one_column(&self, i: usize) -> (r: Result<Vec<Cell>, Error>)
        requires
            self.well_formed(),
            i < self.types().len(),
        ensures
            match decoding::bucket_column(
                self.types(),
                self.info(),
                self.bytes(),
                self.row_count(),
                i as int,
            ) {
                Ok(cs) => r is Ok && values::cells(r->Ok_0@) == cs,
                Err(e) => r is Err && r->Err_0 == e,
            },
    {
        proof {
            assert(self.data_cursors@[i as int] <= self.data@.len());
            assert(self.dict_values@[i as int]@.len() <= u32::MAX);
            assert(self.has_nulls@[i as int] && self.encodings@[i as int] != ENCODING_ALL_NULL
                ==> self.null_bitmaps@[i as int]@.len() == bits::byte_count(
                self.num_rows as int,
            ));
        }
        read_column(
            &self.col_types[i],
            self.encodings[i],
            self.has_nulls[i],
            &self.null_bitmaps[i],
            &self.const_values[i],
            &self.dict_values[i],
            &self.data,
            self.data_cursors[i],
            self.num_rows,
        )
    }

    /// The cells of all columns.
    pub fn read_all_columns(&self) -> (r: Result<Vec<Vec<Cell>>, Error>)
        requires
            self.well_formed(),
        ensures
            match decoding::bucket_columns(
                self.types(),
                self.info(),
                self.bytes(),
                self.row_count(),
            ) {
                Ok(cs) => r is Ok && column_views(r->Ok_0@) == cs,
                Err(e) => r is Err && r->Err_0 == e,
            },
    {
        let ghost dts = self.types();
        let ghost info = self.info();
        let mut out: Vec<Vec<Cell>> = Vec::new();
        let mut i: usize = 0;
        assert(column_views(out@) =~= Seq::<Seq<CellView>>::empty());
        while i < self.col_types.len()
            invariant
                i <= self.col_types@.len(),
                self.well_formed(),
                dts == self.types(),
                info == self.info(),
                decoding::bucket_columns(dts, info, self.bytes(), self.row_count())
                    == decoding::columns_from(
                    dts,
                    info,
                    self.bytes(),
                    self.row_count(),
                    i as int,
                    column_views(out@),
                ),
            decreases self.col_types@.len() - i,
        {
            let ghost before = column_views(out@);
            match self.read_one_column(i) {
                Err(e) => {
                    return Err(e);
                },
                Ok(c) => {
                    out.push(c);
                    assert(column_views(out@) =~= before.push(values::cells(c@)));
                },
            }
            i = i + 1;
        }
        Ok(out)
    }
}

/// Reads the encodings of `n` columns.
fn read_kinds(buf: &[u8], n: usize) -> (out: Vec<u8>)
    requires
        decoding::kinds_size(n as nat) <= buf@.len(),
    ensures
        out@ == decoding::kinds_at(buf@, n as nat),
{
    let mut out: Vec<u8> = Vec::new();
    let mut i: usize = 0;
    while i < n
        invariant
            i <= n,
            decoding::kinds_size(n as nat) <= buf@.len(),
            out@.len() == i,
            forall|j: int|
                0 <= j < i ==> #[trigger] out@[j] == decoding::kinds_at(buf@, n as nat)[j],
        decreases n - i,
    {
        let byte: usize = i / 4;
        let bit: usize = 2 * (i % 4);
        proof {
            assert(8 * byte + bit == 2 * i);
            assert(byte < buf@.len());
        }
        let low: u8 = if bits::read_bit(buf, byte, bit) {
            1
        } else {
            0
        };
        let high: u8 = if bits::read_bit(buf, byte, bit + 1) {
            2
        } else {
            0
        };
        out.push(low + high);
        i = i + 1;
    }
    assert(out@ =~= decoding::kinds_at(buf@, n as nat));
    out
}

/// Reads one bit for each of `n` columns from byte `start` on.
fn read_flags(buf: &[u8], start: usize, n: usize) -> (out: Vec<bool>)
    requires
        start + bits::byte_count(n as int) <= buf@.len(),
    ensures
        out@ == bits::bits_at(buf@, 8 * start as int, n as nat),
{
    let mut out: Vec<bool> = Vec::new();
    let mut i: usize = 0;
    while i < n
        invariant
            i <= n,
            start + bits::byte_count(n as int) <= buf@.len(),
            out@.len() == i,
            forall|j: int|
                0 <= j < i ==> #[trigger] out@[j] == bits::bits_at(
                    buf@,
                    8 * start as int,
                    n as nat,
                )[j],
        decreases n - i,
    {
        out.push(bits::read_bit(buf, start, i));
        i = i + 1;
    }
    assert(out@ =~= bits::bits_at(buf@, 8 * start as int, n as nat));
    out
}

/// Reads the constants of the columns at `*pos` and moves `*pos` behind them.
fn read_consts(
    col_types: &Vec<DataType>,
    encodings: &Vec<u8>,
    buf: &[u8],
    pos: &mut usize,
) -> (r: Result<Vec<Value>, Error>)
    requires
        *old(pos) <= buf@.len(),
        encodings@.len() == col_types@.len(),
    ensures
        match decoding::consts_from(
            col_types@,
            encodings@,
            buf@,
            0,
            *old(pos) as int,
            Seq::empty(),
        ) {
            Ok((vs, end)) => r is Ok && values::value_views(r->Ok_0@) == vs && *final(pos) == end
                && end <= buf@.len() && vs.len() == col_types@.len(),
            Err(e) => r is Err && r->Err_0 == e,
        },
{
    let ghost start = *pos as int;
    let mut out: Vec<Value> = Vec::new();
    let mut i: usize = 0;
    assert(values::value_views(out@) =~= Seq::<ValueView>::empty());
    while i < col_types.len()
        invariant
            i <= col_types@.len(),
            encodings@.len() == col_types@.len(),
            out@.len() == i,
            start == *old(pos),
            *pos <= buf@.len(),
            decoding::consts_from(col_types@, encodings@, buf@, 0, start, Seq::empty())
                == decoding::consts_from(
                col_types@,
                encodings@,
                buf@,
                i as int,
                *pos as int,
                values::value_views(out@),
            ),
        decreases col_types@.len() - i,
    {
        let ghost before = values::value_views(out@);
        if encodings[i] == ENCODING_CONST {
            match values::read_value_at(&col_types[i], buf, *pos, Error::BucketTruncated) {
                Err(e) => {
                    return Err(e);
                },
                Ok((v, size)) => {
                    assert(buf.len() == buf@.len());
                    *pos = *pos + size;
                    out.push(v);
                    assert(values::value_views(out@) =~= before.push(v@));
                },
            }
        } else {
            out.push(Value::Null);
            assert(values::value_views(out@) =~= before.push(ValueView::Null));
        }
        i = i + 1;
    }
    Ok(out)
}

/// Reads the tables of the columns at `*pos` and moves `*pos` behind them.
fn read_dicts(
    col_types: &Vec<DataType>,
    encodings: &Vec<u8>,
    buf: &[u8],
    pos: &mut usize,
) -> (r: Result<Vec<Vec<Value>>, Error>)
    requires
        *old(pos) <= buf@.len(),
        encodings@.len() == col_types@.len(),
    ensures
        match decoding::dicts_from(
            col_types@,
            encodings@,
            buf@,
            0,
            *old(pos) as int,
            Seq::empty(),
        ) {
            Ok((vs, end)) => r is Ok && dict_views(r->Ok_0@) == vs && *final(pos) == end && end
                <= buf@.len() && vs.len() == col_types@.len() && forall|i: int|
                0 <= i < vs.len() ==> (#[trigger] r->Ok_0@[i])@.len() <= u32::MAX,
            Err(e) => r is Err && r->Err_0 == e,
        },
{
    let ghost start = *pos as int;
    let mut out: Vec<Vec<Value>> = Vec::new();
    let mut i: usize = 0;
    assert(dict_views(out@) =~= Seq::<Seq<ValueView>>::empty());
    while i < col_types.len()
        invariant
            i <= col_types@.len(),
            encodings@.len() == col_types@.len(),
            out@.len() == i,
            forall|j: int| 0 <= j < i ==> (#[trigger] out@[j])@.len() <= u32::MAX,
            start == *old(pos),
            *pos <= buf@.len(),
            decoding::dicts_from(col_types@, encodings@, buf@, 0, start, Seq::empty())
                == decoding::dicts_from(
                col_types@,
                encodings@,
                buf@,
                i as int,
                *pos as int,
                dict_views(out@),
            ),
        decreases col_types@.len() - i,
    {
        let ghost before = dict_views(out@);
        if encodings[i] == ENCODING_DICT {
            match read_dict(&col_types[i], buf, pos, Error::BucketTruncated) {
                Err(e) => {
                    return Err(e);
                },
                Ok(d) => {
                    assert(values::value_views(d@).len() == d@.len());
                    out.push(d);
                    assert(dict_views(out@) =~= before.push(values::value_views(d@)));
                },
            }
        } else {
            let none: Vec<Value> = Vec::new();
            assert(values::value_views(none@) =~= Seq::<ValueView>::empty());
            out.push(none);
            assert(dict_views(out@) =~= before.push(Seq::empty()));
        }
        i = i + 1;
    }
    Ok(out)
}

/// Reads the null bitmaps of the columns at `*pos` and moves `*pos` behind them.
fn read_bitmaps(
    encodings: &Vec<u8>,
    has_nulls: &Vec<bool>,
    buf: &[u8],
    num_rows: usize,
    pos: &mut usize,
) -> (r: Result<Vec<Vec<u8>>, Error>)
    requires
        *old(pos) <= buf@.len(),
        encodings@.len() == has_nulls@.len(),
    ensures
        match decoding::bitmaps_from(
            encodings@,
            has_nulls@,
            buf@,
            num_rows as nat,
            0,
            *old(pos) as int,
            Seq::empty(),
        ) {
            Ok((vs, end)) => r is Ok && bitmap_views(r->Ok_0@) == vs && *final(pos) == end && end
                <= buf@.len() && vs.len() == encodings@.len() && forall|i: int|
                0 <= i < vs.len() && has_nulls@[i] && encodings@[i] != ENCODING_ALL_NULL ==> (
                #[trigger] r->Ok_0@[i])@.len() == bits::byte_count(num_rows as int),
            Err(e) => r is Err && r->Err_0 == e,
        },
{
    let ghost start = *pos as int;
    let size: usize = bits::bytes_for_bits(num_rows);
    let mut out: Vec<Vec<u8>> = Vec::new();
    let mut i: usize = 0;
    assert(bitmap_views(out@) =~= Seq::<Seq<u8>>::empty());
    while i < encodings.len()
        invariant
            i <= encodings@.len() == has_nulls@.len(),
            out@.len() == i,
            size == bits::byte_count(num_rows as int),
            forall|j: int|
                0 <= j < i && has_nulls@[j] && encodings@[j] != ENCODING_ALL_NULL ==> (
                #[trigger] out@[j])@.len() == size,
            start == *old(pos),
            *pos <= buf@.len(),
            decoding::bitmaps_from(
                encodings@,
                has_nulls@,
                buf@,
                num_rows as nat,
                0,
                start,
                Seq::empty(),
            ) == decoding::bitmaps_from(
                encodings@,
                has_nulls@,
                buf@,
                num_rows as nat,
                i as int,
                *pos as int,
                bitmap_views(out@),
            ),
        decreases encodings@.len() - i,
    {
        let ghost before = bitmap_views(out@);
        if has_nulls[i] && encodings[i] != ENCODING_ALL_NULL {
            if size > buf.len() - *pos {
                return Err(Error::BucketTruncated);
            }
            let bitmap: Vec<u8> = bytes::copy_range(buf, *pos, *pos + size);
            let ghost view = bitmap@;
            *pos = *pos + size;
            out.push(bitmap);
            assert(bitmap_views(out@) =~= before.push(view));
        } else {
            out.push(Vec::new());
            assert(bitmap_views(out@) =~= before.push(Seq::empty()));
        }
        i = i + 1;
    }
    Ok(out)
}

/// Finds where the data of each column starts, the first at `start`.
fn find_cursors(
    col_types: &Vec<DataType>,
    encodings: &Vec<u8>,
    has_nulls: &Vec<bool>,
    dicts: &Vec<Vec<Value>>,
    bitmaps: &Vec<Vec<u8>>,
    buf: &[u8],
    num_rows: usize,
    start: usize,
) -> (r: Result<Vec<usize>, Error>)
    requires
        start <= buf@.len(),
        encodings@.len() == col_types@.len(),
        has_nulls@.len() == col_types@.len(),
        dicts@.len() == col_types@.len(),
        bitmaps@.len() == col_types@.len(),
        forall|i: int|
            0 <= i < col_types@.len() && has_nulls@[i] && encodings@[i] != ENCODING_ALL_NULL ==> (
            #[trigger] bitmaps@[i])@.len() == bits::byte_count(num_rows as int),
    ensures
        match decoding::cursors_from(
            col_types@,
            encodings@,
            has_nulls@,
            dict_views(dicts@),
            bitmap_views(bitmaps@),
            buf@,
            num_rows as nat,
            0,
            start as int,
            Seq::empty(),
        ) {
            Ok(cs) => r is Ok && position_views(r->Ok_0@) == cs && cs.len() == col_types@.len()
                && forall|i: int|
                0 <= i < cs.len() ==> #[trigger] r->Ok_0@[i] <= buf@.len(),
            Err(e) => r is Err && r->Err_0 == e,
        },
{
    let ghost ds = dict_views(dicts@);
    let ghost bs = bitmap_views(bitmaps@);
    let mut out: Vec<usize> = Vec::new();
    let mut pos: usize = start;
    let mut i: usize = 0;
    assert(position_views(out@) =~= Seq::<int>::empty());
    while i < col_types.len()
        invariant
            i <= col_types@.len(),
            encodings@.len() == col_types@.len(),
            has_nulls@.len() == col_types@.len(),
            dicts@.len() == col_types@.len(),
            bitmaps@.len() == col_types@.len(),
            ds == dict_views(dicts@),
            bs == bitmap_views(bitmaps@),
            forall|j: int|
                0 <= j < col_types@.len() && has_nulls@[j] && encodings@[j] != ENCODING_ALL_NULL
                    ==> (#[trigger] bitmaps@[j])@.len() == bits::byte_count(num_rows as int),
            out@.len() == i,
            forall|j: int| 0 <= j < i ==> #[trigger] out@[j] <= buf@.len(),
            pos <= buf@.len(),
            decoding::cursors_from(
                col_types@,
                encodings@,
                has_nulls@,
                ds,
                bs,
                buf@,
                num_rows as nat,
                0,
                start as int,
                Seq::empty(),
            ) == decoding::cursors_from(
                col_types@,
                encodings@,
                has_nulls@,
                ds,
                bs,
                buf@,
                num_rows as nat,
                i as int,
                pos as int,
                position_views(out@),
            ),
        decreases col_types@.len() - i,
    {
        let ghost before = position_views(out@);
        let ghost here = pos as int;
        assert(bs[i as int] == bitmaps@[i as int]@);
        assert(ds[i as int].len() == dicts@[i as int]@.len());
        let count: usize = if has_nulls[i] && encodings[i] == ENCODING_ALL_NULL {
            0
        } else {
            count_non_null(has_nulls[i], &bitmaps[i], num_rows)
        };
        out.push(pos);
        if encodings[i] == ENCODING_PLAIN {
            match skip_plain_values(
                &col_types[i],
                buf,
                count,
                &mut pos,
                Error::BucketTruncated,
                Error::BucketTruncated,
            ) {
                Err(e) => {
                    return Err(e);
                },
                Ok(()) => {},
            }
        } else if encodings[i] == ENCODING_DICT {
            match packed_indices_size(count, dicts[i].len(), buf.len() - pos) {
                None => {
                    return Err(Error::BucketTruncated);
                },
                Some(size) => {
                    pos = pos + size;
                },
            }
        }
        assert(position_views(out@) =~= before.push(here));
        i = i + 1;
    }
    Ok(out)
}

/// Reads a column that is stored as a page of its own.
pub struct ColumnPageReader {
    col_type: DataType,
    encoding: u8,
    has_nulls: bool,
    const_value: Value,
    dict_values: Vec<Value>,
    null_bitmap: Vec<u8>,
    data: Vec<u8>,
    data_cursor: usize,
    num_rows: usize,
    start: Ghost<int>,
}

impl ColumnPageReader {
    /// The type of the column.
    pub closed spec fn data_type(&self) -> DataType {
        self.col_type
    }

    /// The encoding of the column.
    pub closed spec fn kind(&self) -> u8 {
        self.encoding
    }

    /// Whether the column has nulls.
    pub closed spec fn flag(&self) -> bool {
        self.has_nulls
    }

    /// The constant of the column.
    pub closed spec fn constant(&self) -> ValueView {
        self.const_value@
    }

    /// The bytes of the page.
    pub closed spec fn bytes(&self) -> Seq<u8> {
        self.data@
    }

    /// How many rows the page has.
    pub closed spec fn row_count(&self) -> nat {
        self.num_rows as nat
    }

    /// What the bytes say of the column.
    pub closed spec fn info(&self) -> PageInfo {
        PageInfo {
            dict: values::value_views(self.dict_values@),
            bitmap: self.null_bitmap@,
            cursor: self.data_cursor as int,
        }
    }

    /// The reader holds what its bytes say.
    pub closed spec fn well_formed(&self) -> bool {
        &&& decoding::parse_page(
            self.col_type,
            self.encoding,
            self.has_nulls,
            self.data@,
            self.start@,
            self.num_rows as nat,
        ) == Ok::<PageInfo, Error>(self.info())
        &&& self.data_cursor <= self.data@.len()
        &&& self.dict_values@.len() <= u32::MAX
        &&& self.has_nulls && (self.encoding == ENCODING_CONST || self.encoding == ENCODING_DICT
            || self.encoding == ENCODING_PLAIN) ==> self.null_bitmap@.len() == bits::byte_count(
            self.num_rows as int,
        )
    }

    /// The cells of the column.
    pub open spec fn contents(&self) -> Result<Seq<CellView>, Error> {
        decoding::page_cells(
            self.data_type(),
            self.kind(),
            self.flag(),
            self.constant(),
            self.info(),
            self.bytes(),
            self.row_count(),
        )
    }

    /// Opens a page that starts with its first byte.
    pub fn new(
        col_type: DataType,
        encoding: u8,
        has_nulls: bool,
        const_value: Value,
        page_data: Vec<u8>,
        num_rows: usize,
    ) -> (r: Result<ColumnPageReader, Error>)
        ensures
            match decoding::parse_page(
                col_type,
                encoding,
                has_nulls,
                page_data@,
                0,
                num_rows as nat,
            ) {
                Ok(info) => r is Ok && r->Ok_0.well_formed() && r->Ok_0.info() == info
                    && r->Ok_0.data_type() == col_type && r->Ok_0.kind() == encoding
                    && r->Ok_0.flag() == has_nulls && r->Ok_0.constant() == const_value@
                    && r->Ok_0.bytes() == page_data@ && r->Ok_0.row_count() == num_rows,
                Err(e) => r is Err && r->Err_0 == e,
            },
    {
        Self::new_with_page_data_start(
            col_type,
            encoding,
            has_nulls,
            const_value,
            page_data,
            0,
            num_rows,
        )
    }

    /// Opens a page that starts at `page_data_start`.
    pub fn new_with_page_data_start(
        col_type: DataType,
        encoding: u8,
        has_nulls: bool,
        const_value: Value,
        data: Vec<u8>,
        page_data_start: usize,
        num_rows: usize,
    ) -> (r: Result<ColumnPageReader, Error>)
        ensures
            match decoding::parse_page(
                col_type,
                encoding,
                has_nulls,
                data@,
                page_data_start as int,
                num_rows as nat,
            ) {
                Ok(info) => r is Ok && r->Ok_0.well_formed() && r->Ok_0.info() == info
                    && r->Ok_0.data_type() == col_type && r->Ok_0.kind() == encoding
                    && r->Ok_0.flag() == has_nulls && r->Ok_0.constant() == const_value@
                    && r->Ok_0.bytes() == data@ && r->Ok_0.row_count() == num_rows,
                Err(e) => r is Err && r->Err_0 == e,
            },
    {
        if page_data_start > data.len() {
            return Err(Error::PageStart);
        }
        let mut pos: usize = page_data_start;
        let mut dict_values: Vec<Value> = Vec::new();
        let mut null_bitmap: Vec<u8> = Vec::new();
        assert(values::value_views(dict_values@) =~= Seq::<ValueView>::empty());
        if encoding == ENCODING_CONST {
            null_bitmap =
            match read_page_bitmap(has_nulls, &data, num_rows, &mut pos) {
                Err(e) => {
                    return Err(e);
                },
                Ok(b) => b,
            };
            pos = page_data_start;
        } else if encoding == ENCODING_DICT {
            dict_values =
            match read_dict(&col_type, &data, &mut pos, Error::PageTruncated) {
                Err(e) => {
                    return Err(e);
                },
                Ok(d) => d,
            };
            assert(values::value_views(dict_values@).len() == dict_values@.len());
            null_bitmap =
            match read_page_bitmap(has_nulls, &data, num_rows, &mut pos) {
                Err(e) => {
                    return Err(e);
                },
                Ok(b) => b,
            };
            let count: usize = count_non_null(has_nulls, &null_bitmap, num_rows);
            if packed_indices_size(count, dict_values.len(), data.len() - pos).is_none() {
                return Err(Error::PageDictIndices);
            }
        } else if encoding == ENCODING_PLAIN {
            null_bitmap =
            match read_page_bitmap(has_nulls, &data, num_rows, &mut pos) {
                Err(e) => {
                    return Err(e);
                },
                Ok(b) => b,
            };
            let count: usize = count_non_null(has_nulls, &null_bitmap, num_rows);
            let mut scan: usize = pos;
            match skip_plain_values(
                &col_type,
                &data,
                count,
                &mut scan,
                Error::PagePlainFixed,
                Error::PagePlainVariable,
            ) {
                Err(e) => {
                    return Err(e);
                },
                Ok(()) => {},
            }
        }
        Ok(
            ColumnPageReader {
                col_type,
                encoding,
                has_nulls,
                const_value,
                dict_values,
                null_bitmap,
                data,
                data_cursor: pos,
                num_rows,
                start: Ghost(page_data_start as int),
            },
        )
    }

    /// The cells of the column.
    pub fn read_all(&self) -> (r: Result<Vec<Cell>, Error>)
        requires
            self.well_formed(),
        ensures
            match self.contents() {
                Ok(cs) => r is Ok && values::cells(r->Ok_0@) == cs,
                Err(e) => r is Err && r->Err_0 == e,
            },
    {
        read_column(
            &self.col_type,
            self.encoding,
            self.has_nulls,
            &self.null_bitmap,
            &self.const_value,
            &self.dict_values,
            &self.data,
            self.data_cursor,
            self.num_rows,
        )
    }
}

/// Reads the null bitmap of a page at `*pos`, if it has one, and moves `*pos`
/// behind it.
fn read_page_bitmap(flag: bool, buf: &[u8], num_rows: usize, pos: &mut usize) -> (r: Result<
    Vec<u8>,
    Error,
>)
    requires
        *old(pos) <= buf@.len(),
    ensures
        match decoding::page_bitmap(flag, buf@, num_rows as nat, *old(pos) as int) {
            Ok((b, end)) => r is Ok && r->Ok_0@ == b && *final(pos) == end && end <= buf@.len()
                && (flag ==> b.len() == bits::byte_count(num_rows as int)),
            Err(e) => r is Err && r->Err_0 == e,
        },
{
    if !flag {
        return Ok(Vec::new());
    }
    let size: usize = bits::bytes_for_bits(num_rows);
    if size > buf.len() - *pos {
        return Err(Error::PageNullBitmap);
    }
    let bitmap: Vec<u8> = bytes::copy_range(buf, *pos, *pos + size);
    *pos = *pos + size;
    Ok(bitmap)
}

} // verus!
