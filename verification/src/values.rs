//! Single values: the cells that columns hold in memory, the values that buckets
//! and statistics store, and the bytes of the latter.
//!
//! Floating-point numbers are carried as their IEEE 754 bit patterns.

use crate::bytes;
use crate::error::Error;
use crate::types;
use crate::types::{DataType, TimeUnit};
use crate::varint;
use vstd::prelude::*;
use vstd::utf8;

verus! {

/// A stored value.
#[derive(Debug, Clone, PartialEq, Eq)]
pub enum Value {
    Null,
    Boolean(bool),
    TinyInt(i8),
    SmallInt(i16),
    Integer(i32),
    BigInt(i64),
    /// The bits of a 32-bit float.
    Float(u32),
    /// The bits of a 64-bit float.
    Double(u64),
    Date(i32),
    Time(i32),
    DecimalCompact(i64),
    /// The two's complement of the unscaled number, the most significant byte first.
    DecimalLarge(Vec<u8>),
    TimestampMillis(i64),
    TimestampMicros(i64),
    TimestampNanos { millis: i64, nanos_of_milli: i32 },
    String(Vec<u8>),
    Bytes(Vec<u8>),
}

/// The mathematical content of a [`Value`].
pub enum ValueView {
    Null,
    Boolean(bool),
    TinyInt(i8),
    SmallInt(i16),
    Integer(i32),
    BigInt(i64),
    Float(u32),
    Double(u64),
    Date(i32),
    Time(i32),
    DecimalCompact(i64),
    DecimalLarge(Seq<u8>),
    TimestampMillis(i64),
    TimestampMicros(i64),
    TimestampNanos { millis: i64, nanos_of_milli: i32 },
    String(Seq<u8>),
    Bytes(Seq<u8>),
}

impl View for Value {
    type V = ValueView;

    open spec fn view(&self) -> ValueView {
        match self {
            Value::Null => ValueView::Null,
            Value::Boolean(x) => ValueView::Boolean(*x),
            Value::TinyInt(x) => ValueView::TinyInt(*x),
            Value::SmallInt(x) => ValueView::SmallInt(*x),
            Value::Integer(x) => ValueView::Integer(*x),
            Value::BigInt(x) => ValueView::BigInt(*x),
            Value::Float(x) => ValueView::Float(*x),
            Value::Double(x) => ValueView::Double(*x),
            Value::Date(x) => ValueView::Date(*x),
            Value::Time(x) => ValueView::Time(*x),
            Value::DecimalCompact(x) => ValueView::DecimalCompact(*x),
            Value::DecimalLarge(b) => ValueView::DecimalLarge(b@),
            Value::TimestampMillis(x) => ValueView::TimestampMillis(*x),
            Value::TimestampMicros(x) => ValueView::TimestampMicros(*x),
            Value::TimestampNanos { millis, nanos_of_milli } => ValueView::TimestampNanos {
                millis: *millis,
                nanos_of_milli: *nanos_of_milli,
            },
            Value::String(b) => ValueView::String(b@),
            Value::Bytes(b) => ValueView::Bytes(b@),
        }
    }
}

/// A cell of a column in memory.
#[derive(Debug, Clone, PartialEq, Eq)]
pub enum Cell {
    Null,
    Boolean(bool),
    Int8(i8),
    Int16(i16),
    Int32(i32),
    Int64(i64),
    /// The bits of a 32-bit float.
    Float32(u32),
    /// The bits of a 64-bit float.
    Float64(u64),
    Date32(i32),
    Time32(i32),
    Utf8(Vec<u8>),
    Binary(Vec<u8>),
    /// The unscaled number.
    Decimal128(i128),
    TimestampMillis(i64),
    TimestampMicros(i64),
    TimestampNanos(i64),
    /// Milliseconds and the nanoseconds within them, either of which may be null.
    LegacyTimestampNanos(Option<i64>, Option<i32>),
}

/// The mathematical content of a [`Cell`].
pub enum CellView {
    Null,
    Boolean(bool),
    Int8(i8),
    Int16(i16),
    Int32(i32),
    Int64(i64),
    Float32(u32),
    Float64(u64),
    Date32(i32),
    Time32(i32),
    Utf8(Seq<u8>),
    Binary(Seq<u8>),
    Decimal128(i128),
    TimestampMillis(i64),
    TimestampMicros(i64),
    TimestampNanos(i64),
    LegacyTimestampNanos(Option<i64>, Option<i32>),
}

impl View for Cell {
    type V = CellView;

    open spec fn view(&self) -> CellView {
        match self {
            Cell::Null => CellView::Null,
            Cell::Boolean(x) => CellView::Boolean(*x),
            Cell::Int8(x) => CellView::Int8(*x),
            Cell::Int16(x) => CellView::Int16(*x),
            Cell::Int32(x) => CellView::Int32(*x),
            Cell::Int64(x) => CellView::Int64(*x),
            Cell::Float32(x) => CellView::Float32(*x),
            Cell::Float64(x) => CellView::Float64(*x),
            Cell::Date32(x) => CellView::Date32(*x),
            Cell::Time32(x) => CellView::Time32(*x),
            Cell::Utf8(b) => CellView::Utf8(b@),
            Cell::Binary(b) => CellView::Binary(b@),
            Cell::Decimal128(x) => CellView::Decimal128(*x),
            Cell::TimestampMillis(x) => CellView::TimestampMillis(*x),
            Cell::TimestampMicros(x) => CellView::TimestampMicros(*x),
            Cell::TimestampNanos(x) => CellView::TimestampNanos(*x),
            Cell::LegacyTimestampNanos(m, n) => CellView::LegacyTimestampNanos(*m, *n),
        }
    }
}

/// The contents of a column of cells.
pub open spec fn cells(column: Seq<Cell>) -> Seq<CellView> {
    Seq::new(column.len(), |i: int| column[i]@)
}

/// The contents of a list of values.
pub open spec fn value_views(values: Seq<Value>) -> Seq<ValueView> {
    Seq::new(values.len(), |i: int| values[i]@)
}

/// Whether a bucket can hold columns of the type.
pub open spec fn storable(dt: DataType) -> bool {
    match dt {
        DataType::Unsupported => false,
        DataType::Timestamp(TimeUnit::Second, _) => false,
        _ => true,
    }
}

/// The shortest two's complement of `v`, the most significant byte first.
pub open spec fn big_integer(v: int) -> Seq<u8>
    decreases (if v < 0 { -v } else { v }),
{
    if -128 <= v < 128 {
        seq![bytes::residue(v, 1) as u8]
    } else {
        big_integer(v / 256).push((v % 256) as u8)
    }
}

/// The number whose two's complement is `s`; no bytes stand for zero.
pub open spec fn big_integer_value(s: Seq<u8>) -> int {
    if s.len() == 0 {
        0
    } else {
        bytes::signed(bytes::be_value(s), s.len())
    }
}

/// The two's complement of `v` in `n` bytes.
pub open spec fn be_signed(v: int, n: nat) -> Seq<u8> {
    bytes::be(bytes::residue(v, n), n)
}

/// The signed number in the bytes `s`.
pub open spec fn signed_value(s: Seq<u8>) -> int {
    bytes::signed(bytes::be_value(s), s.len())
}

/// The low 64 bits of `v` as a signed number.
pub open spec fn low_i64(v: int) -> i64 {
    bytes::signed((v % 0x1_0000_0000_0000_0000) as nat, 8) as i64
}

/// What is wrong with a cell of a column of the type, if anything is.
pub open spec fn cell_error(dt: DataType, c: CellView) -> Option<Error> {
    if !storable(dt) {
        Some(Error::UnsupportedType)
    } else {
        match (dt, c) {
            (_, CellView::Null) => None,
            (DataType::Boolean, CellView::Boolean(_)) => None,
            (DataType::Int8, CellView::Int8(_)) => None,
            (DataType::Int16, CellView::Int16(_)) => None,
            (DataType::Int32, CellView::Int32(_)) => None,
            (DataType::Int64, CellView::Int64(_)) => None,
            (DataType::Float32, CellView::Float32(_)) => None,
            (DataType::Float64, CellView::Float64(_)) => None,
            (DataType::Date32, CellView::Date32(_)) => None,
            (DataType::Time32(_), CellView::Time32(_)) => None,
            (DataType::Utf8, CellView::Utf8(b)) => if utf8::valid_utf8(b) {
                None
            } else {
                Some(Error::TextNotUtf8)
            },
            (DataType::Binary, CellView::Binary(_)) => None,
            (DataType::Decimal128(_, _), CellView::Decimal128(_)) => None,
            (
                DataType::Timestamp(TimeUnit::Millisecond, _),
                CellView::TimestampMillis(_),
            ) => None,
            (
                DataType::Timestamp(TimeUnit::Microsecond, _),
                CellView::TimestampMicros(_),
            ) => None,
            (DataType::Timestamp(TimeUnit::Nanosecond, _), CellView::TimestampNanos(_)) => None,
            (DataType::LegacyTimestampNanos, CellView::LegacyTimestampNanos(m, n)) => match (m, n) {
                (Some(_), Some(nanos)) => if 0 <= nanos < 1_000_000 {
                    None
                } else {
                    Some(Error::LegacyInvalidNanos)
                },
                _ => Some(Error::LegacyChildNull),
            },
            _ => Some(Error::ColumnTypeMismatch),
        }
    }
}

/// Text and binary cells are short enough for a 32-bit length.
pub open spec fn cell_fits(c: CellView) -> bool {
    match c {
        CellView::Utf8(b) => b.len() <= u32::MAX,
        CellView::Binary(b) => b.len() <= u32::MAX,
        _ => true,
    }
}

/// The value that stores a cell of a column of the type.
pub open spec fn value_of(dt: DataType, c: CellView) -> ValueView {
    match c {
        CellView::Null => ValueView::Null,
        CellView::Boolean(x) => ValueView::Boolean(x),
        CellView::Int8(x) => ValueView::TinyInt(x),
        CellView::Int16(x) => ValueView::SmallInt(x),
        CellView::Int32(x) => ValueView::Integer(x),
        CellView::Int64(x) => ValueView::BigInt(x),
        CellView::Float32(x) => ValueView::Float(x),
        CellView::Float64(x) => ValueView::Double(x),
        CellView::Date32(x) => ValueView::Date(x),
        CellView::Time32(x) => ValueView::Time(x),
        CellView::Utf8(b) => ValueView::String(b),
        CellView::Binary(b) => ValueView::Bytes(b),
        CellView::Decimal128(x) => if types::width(dt) == 8 {
            ValueView::DecimalCompact(low_i64(x as int))
        } else {
            ValueView::DecimalLarge(big_integer(x as int))
        },
        CellView::TimestampMillis(x) => ValueView::TimestampMillis(x),
        CellView::TimestampMicros(x) => ValueView::TimestampMicros(x),
        CellView::TimestampNanos(x) => ValueView::TimestampNanos {
            millis: (x as int / 1_000_000) as i64,
            nanos_of_milli: (x as int % 1_000_000) as i32,
        },
        CellView::LegacyTimestampNanos(m, n) => match (m, n) {
            (Some(millis), Some(nanos)) => ValueView::TimestampNanos {
                millis,
                nanos_of_milli: nanos,
            },
            _ => ValueView::Null,
        },
    }
}

/// The bytes of a stored value.
pub open spec fn value_bytes(v: ValueView) -> Seq<u8> {
    match v {
        ValueView::Null => Seq::empty(),
        ValueView::Boolean(x) => seq![
            if x {
                1u8
            } else {
                0u8
            },
        ],
        ValueView::TinyInt(x) => be_signed(x as int, 1),
        ValueView::SmallInt(x) => be_signed(x as int, 2),
        ValueView::Integer(x) => be_signed(x as int, 4),
        ValueView::BigInt(x) => be_signed(x as int, 8),
        ValueView::Float(x) => bytes::be(x as nat, 4),
        ValueView::Double(x) => bytes::be(x as nat, 8),
        ValueView::Date(x) => be_signed(x as int, 4),
        ValueView::Time(x) => be_signed(x as int, 4),
        ValueView::DecimalCompact(x) => be_signed(x as int, 8),
        ValueView::DecimalLarge(b) => varint::leb(b.len()) + b,
        ValueView::TimestampMillis(x) => be_signed(x as int, 8),
        ValueView::TimestampMicros(x) => be_signed(x as int, 8),
        ValueView::TimestampNanos { millis, nanos_of_milli } => be_signed(millis as int, 8)
            + be_signed(nanos_of_milli as int, 4),
        ValueView::String(b) => varint::leb(b.len()) + b,
        ValueView::Bytes(b) => varint::leb(b.len()) + b,
    }
}

/// The bytes that store a cell of a column of the type.
pub open spec fn stored(dt: DataType, c: CellView) -> Seq<u8> {
    value_bytes(value_of(dt, c))
}

/// The value of a fixed-width type in its bytes.
pub open spec fn typed_value(dt: DataType, w: Seq<u8>) -> ValueView {
    match dt {
        DataType::Boolean => ValueView::Boolean(w[0] != 0),
        DataType::Int8 => ValueView::TinyInt(signed_value(w) as i8),
        DataType::Int16 => ValueView::SmallInt(signed_value(w) as i16),
        DataType::Int32 => ValueView::Integer(signed_value(w) as i32),
        DataType::Date32 => ValueView::Date(signed_value(w) as i32),
        DataType::Time32(_) => ValueView::Time(signed_value(w) as i32),
        DataType::Float32 => ValueView::Float(bytes::be_value(w) as u32),
        DataType::Int64 => ValueView::BigInt(signed_value(w) as i64),
        DataType::Float64 => ValueView::Double(bytes::be_value(w) as u64),
        DataType::Decimal128(_, _) => ValueView::DecimalCompact(signed_value(w) as i64),
        DataType::Timestamp(TimeUnit::Millisecond, _) => ValueView::TimestampMillis(
            signed_value(w) as i64,
        ),
        DataType::Timestamp(TimeUnit::Microsecond, _) => ValueView::TimestampMicros(
            signed_value(w) as i64,
        ),
        DataType::Timestamp(TimeUnit::Nanosecond, _) => ValueView::TimestampNanos {
            millis: signed_value(w.subrange(0, 8)) as i64,
            nanos_of_milli: signed_value(w.subrange(8, 12)) as i32,
        },
        DataType::LegacyTimestampNanos => ValueView::TimestampNanos {
            millis: signed_value(w.subrange(0, 8)) as i64,
            nanos_of_milli: signed_value(w.subrange(8, 12)) as i32,
        },
        _ => ValueView::Null,
    }
}

/// The value of a variable-length type that consists of the bytes `b`.
pub open spec fn variable_value(dt: DataType, b: Seq<u8>) -> ValueView {
    match dt {
        DataType::Utf8 => ValueView::String(b),
        DataType::Binary => ValueView::Bytes(b),
        DataType::Decimal128(_, _) => ValueView::DecimalLarge(b),
        _ => ValueView::Null,
    }
}

/// The variable-length value that stands at `p`, and its size.
pub open spec fn variable_at(dt: DataType, s: Seq<u8>, p: int) -> Result<(ValueView, int), Error> {
    let q = varint::parse_end(s, p, 5);
    match varint::parse_u32(s, p) {
        Err(_) => Err(Error::ValueVarint),
        Ok(len) => if q + len > s.len() {
            Err(Error::ValueTruncated)
        } else {
            Ok((variable_value(dt, s.subrange(q, q + len)), q + len - p))
        },
    }
}

/// The value that stands at `p`, and its size; `short` is the error for a
/// fixed-width value that is cut off.
pub open spec fn value_at(dt: DataType, s: Seq<u8>, p: int, short: Error) -> Result<
    (ValueView, int),
    Error,
> {
    let w = types::width(dt);
    if w > 0 {
        if p + w > s.len() {
            Err(short)
        } else {
            Ok((typed_value(dt, s.subrange(p, p + w)), w))
        }
    } else {
        variable_at(dt, s, p)
    }
}

/// Whether the value is one of the type.
pub open spec fn value_matches(dt: DataType, v: ValueView) -> bool {
    match v {
        ValueView::Null => false,
        ValueView::Boolean(_) => dt == DataType::Boolean,
        ValueView::TinyInt(_) => dt == DataType::Int8,
        ValueView::SmallInt(_) => dt == DataType::Int16,
        ValueView::Integer(_) => dt == DataType::Int32,
        ValueView::BigInt(_) => dt == DataType::Int64,
        ValueView::Float(_) => dt == DataType::Float32,
        ValueView::Double(_) => dt == DataType::Float64,
        ValueView::Date(_) => dt == DataType::Date32,
        ValueView::Time(_) => dt is Time32,
        ValueView::DecimalCompact(_) => dt is Decimal128 && types::width(dt) == 8,
        ValueView::DecimalLarge(_) => dt is Decimal128 && types::width(dt) != 8,
        ValueView::TimestampMillis(_) => dt is Timestamp && dt->Timestamp_0
            == TimeUnit::Millisecond,
        ValueView::TimestampMicros(_) => dt is Timestamp && dt->Timestamp_0
            == TimeUnit::Microsecond,
        ValueView::TimestampNanos { .. } => types::width(dt) == 12,
        ValueView::String(_) => dt == DataType::Utf8,
        ValueView::Bytes(_) => dt == DataType::Binary,
    }
}

/// The byte strings of a value are short enough for a 32-bit length.
pub open spec fn value_fits(v: ValueView) -> bool {
    match v {
        ValueView::DecimalLarge(b) => b.len() <= u32::MAX,
        ValueView::String(b) => b.len() <= u32::MAX,
        ValueView::Bytes(b) => b.len() <= u32::MAX,
        _ => true,
    }
}

/// The 32-bit number of a value, zero where it holds none.
pub open spec fn int32_of(v: ValueView) -> i32 {
    match v {
        ValueView::Integer(x) => x,
        ValueView::Date(x) => x,
        ValueView::Time(x) => x,
        _ => 0,
    }
}

/// The 64-bit number of a value, zero where it holds none.
pub open spec fn int64_of(v: ValueView) -> i64 {
    match v {
        ValueView::BigInt(x) => x,
        ValueView::DecimalCompact(x) => x,
        ValueView::TimestampMillis(x) => x,
        ValueView::TimestampMicros(x) => x,
        _ => 0,
    }
}

/// The byte string of a value, empty where it holds none.
pub open spec fn bytes_of(v: ValueView) -> Seq<u8> {
    match v {
        ValueView::String(b) => b,
        ValueView::Bytes(b) => b,
        ValueView::DecimalLarge(b) => b,
        _ => Seq::empty(),
    }
}

/// The milliseconds and nanoseconds of a value, zero where it holds none.
pub open spec fn pair_of(v: ValueView) -> (i64, i32) {
    match v {
        ValueView::TimestampNanos { millis, nanos_of_milli } => (millis, nanos_of_milli),
        _ => (0i64, 0i32),
    }
}

/// The cell that a stored value of a column of the type stands for. A value that
/// is not of the type stands for zero, or for the empty string.
pub open spec fn cell_of(dt: DataType, v: ValueView) -> Result<CellView, Error> {
    match dt {
        DataType::Boolean => Ok(
            CellView::Boolean(
                match v {
                    ValueView::Boolean(x) => x,
                    _ => false,
                },
            ),
        ),
        DataType::Int8 => Ok(
            CellView::Int8(
                match v {
                    ValueView::TinyInt(x) => x,
                    _ => 0,
                },
            ),
        ),
        DataType::Int16 => Ok(
            CellView::Int16(
                match v {
                    ValueView::SmallInt(x) => x,
                    _ => 0,
                },
            ),
        ),
        DataType::Int32 => Ok(CellView::Int32(int32_of(v))),
        DataType::Date32 => Ok(CellView::Date32(int32_of(v))),
        DataType::Time32(_) => Ok(CellView::Time32(int32_of(v))),
        DataType::Int64 => Ok(CellView::Int64(int64_of(v))),
        DataType::Float32 => Ok(
            CellView::Float32(
                match v {
                    ValueView::Float(x) => x,
                    _ => 0,
                },
            ),
        ),
        DataType::Float64 => Ok(
            CellView::Float64(
                match v {
                    ValueView::Double(x) => x,
                    _ => 0,
                },
            ),
        ),
        DataType::Utf8 => if utf8::valid_utf8(bytes_of(v)) {
            Ok(CellView::Utf8(bytes_of(v)))
        } else {
            Err(Error::CorruptText)
        },
        DataType::Decimal128(_, _) => if types::width(dt) == 8 {
            Ok(CellView::Decimal128(int64_of(v) as i128))
        } else if bytes_of(v).len() > 16 {
            Err(Error::DecimalTooWide)
        } else {
            Ok(CellView::Decimal128(big_integer_value(bytes_of(v)) as i128))
        },
        DataType::Timestamp(TimeUnit::Millisecond, _) => Ok(CellView::TimestampMillis(int64_of(v))),
        DataType::Timestamp(TimeUnit::Microsecond, _) => Ok(CellView::TimestampMicros(int64_of(v))),
        DataType::Timestamp(TimeUnit::Nanosecond, _) => match types::joined(
            pair_of(v).0 as int,
            pair_of(v).1 as int,
        ) {
            Ok(ns) => Ok(CellView::TimestampNanos(ns)),
            Err(e) => Err(e),
        },
        DataType::LegacyTimestampNanos => Ok(
            CellView::LegacyTimestampNanos(Some(pair_of(v).0), Some(pair_of(v).1)),
        ),
        _ => Ok(CellView::Binary(bytes_of(v))),
    }
}

/// Whether storing the cell in a column of the type loses nothing: all cells but
/// decimals that exceed 64 bits in a column of at most 18 digits.
pub open spec fn exact_cell(dt: DataType, c: CellView) -> bool {
    match c {
        CellView::Decimal128(x) => types::width(dt) == 8 ==> i64::MIN <= x <= i64::MAX,
        _ => true,
    }
}

proof fn lemma_be_signed(v: int, n: nat)
    requires
        n >= 1,
        -(bytes::base(n) as int) <= 2 * v < bytes::base(n),
    ensures
        be_signed(v, n).len() == n,
        signed_value(be_signed(v, n)) == v,
{
    bytes::lemma_signed_round_trip(v, n);
    bytes::lemma_be_round_trip(bytes::residue(v, n), n);
}

/// The size of a value of a type is the width of the type.
pub proof fn lemma_value_bytes_len(dt: DataType, v: ValueView)
    requires
        value_matches(dt, v),
    ensures
        types::width(dt) > 0 ==> value_bytes(v).len() == types::width(dt),
        types::width(dt) <= 0 ==> value_bytes(v) == varint::leb(bytes_of(v).len()) + bytes_of(v)
            && v == variable_value(dt, bytes_of(v)),
        value_bytes(v).len() >= 1,
{
    bytes::lemma_bases();
    match v {
        ValueView::Float(x) => {
            bytes::lemma_be_len(x as nat, 4);
        },
        ValueView::Double(x) => {
            bytes::lemma_be_len(x as nat, 8);
        },
        ValueView::TinyInt(x) => {
            bytes::lemma_be_len(bytes::residue(x as int, 1), 1);
        },
        ValueView::SmallInt(x) => {
            bytes::lemma_be_len(bytes::residue(x as int, 2), 2);
        },
        ValueView::Integer(x) => {
            bytes::lemma_be_len(bytes::residue(x as int, 4), 4);
        },
        ValueView::Date(x) => {
            bytes::lemma_be_len(bytes::residue(x as int, 4), 4);
        },
        ValueView::Time(x) => {
            bytes::lemma_be_len(bytes::residue(x as int, 4), 4);
        },
        ValueView::BigInt(x) => {
            bytes::lemma_be_len(bytes::residue(x as int, 8), 8);
        },
        ValueView::DecimalCompact(x) => {
            bytes::lemma_be_len(bytes::residue(x as int, 8), 8);
        },
        ValueView::TimestampMillis(x) => {
            bytes::lemma_be_len(bytes::residue(x as int, 8), 8);
        },
        ValueView::TimestampMicros(x) => {
            bytes::lemma_be_len(bytes::residue(x as int, 8), 8);
        },
        ValueView::TimestampNanos { millis, nanos_of_milli } => {
            bytes::lemma_be_len(bytes::residue(millis as int, 8), 8);
            bytes::lemma_be_len(bytes::residue(nanos_of_milli as int, 4), 4);
        },
        _ => {},
    }
}

/// Reading where the bytes of a value of the type stand gives the value and its
/// size.
pub proof fn lemma_value_round_trip(dt: DataType, v: ValueView, s: Seq<u8>, p: int, short: Error)
    requires
        value_matches(dt, v),
        value_fits(v),
        bytes::has_at(s, p, value_bytes(v)),
    ensures
        value_at(dt, s, p, short) == Ok::<(ValueView, int), Error>(
            (v, value_bytes(v).len() as int),
        ),
{
    bytes::lemma_bases();
    lemma_value_bytes_len(dt, v);
    let w = types::width(dt);
    if w > 0 {
        let t = s.subrange(p, p + w);
        assert(t == value_bytes(v));
        match v {
            ValueView::Boolean(x) => {},
            ValueView::TinyInt(x) => {
                lemma_be_signed(x as int, 1);
            },
            ValueView::SmallInt(x) => {
                lemma_be_signed(x as int, 2);
            },
            ValueView::Integer(x) => {
                lemma_be_signed(x as int, 4);
            },
            ValueView::Date(x) => {
                lemma_be_signed(x as int, 4);
            },
            ValueView::Time(x) => {
                lemma_be_signed(x as int, 4);
            },
            ValueView::BigInt(x) => {
                lemma_be_signed(x as int, 8);
            },
            ValueView::Float(x) => {
                bytes::lemma_be_round_trip(x as nat, 4);
            },
            ValueView::Double(x) => {
                bytes::lemma_be_round_trip(x as nat, 8);
            },
            ValueView::DecimalCompact(x) => {
                lemma_be_signed(x as int, 8);
            },
            ValueView::TimestampMillis(x) => {
                lemma_be_signed(x as int, 8);
            },
            ValueView::TimestampMicros(x) => {
                lemma_be_signed(x as int, 8);
            },
            ValueView::TimestampNanos { millis, nanos_of_milli } => {
                lemma_be_signed(millis as int, 8);
                lemma_be_signed(nanos_of_milli as int, 4);
                assert(t.subrange(0, 8) =~= be_signed(millis as int, 8));
                assert(t.subrange(8, 12) =~= be_signed(nanos_of_milli as int, 4));
            },
            _ => {},
        }
    } else {
        let b = bytes_of(v);
        bytes::lemma_has_at_split(s, p, varint::leb(b.len()), b);
        varint::lemma_u32_round_trip(s, p, b.len() as u32);
    }
}

/// One more byte of a two's complement: `u` stands for `q` in numbers below `b`.
proof fn lemma_signed_step(v: int, q: int, u: int, b: int)
    requires
        q == v / 256,
        b % 2 == 0,
        -b <= 2 * q < b,
        0 <= u < b,
        q == (if 2 * u < b { u } else { u - b }),
    ensures
        -(256 * b) <= 2 * v < 256 * b,
        v == (if 2 * (256 * u + v % 256) < 256 * b {
            256 * u + v % 256
        } else {
            256 * u + v % 256 - 256 * b
        }),
{
    assert(v == 256 * q + v % 256);
    let h = b / 2;
    assert(b == 2 * h);
    assert(-h <= q <= h - 1);
}

/// The two's complement of a number leads back to the number.
#[verifier::rlimit(40)]
pub proof fn lemma_big_integer_round_trip(v: int)
    ensures
        big_integer(v).len() >= 1,
        big_integer_value(big_integer(v)) == v,
        -(bytes::base(big_integer(v).len()) as int) <= 2 * v < bytes::base(big_integer(v).len()),
    decreases (if v < 0 { -v } else { v }),
{
    if -128 <= v < 128 {
        let s = seq![bytes::residue(v, 1) as u8];
        reveal_with_fuel(bytes::base, 2);
        reveal_with_fuel(bytes::be_value, 2);
        assert(s.drop_last() =~= Seq::<u8>::empty());
        assert(bytes::be_value(s) == bytes::residue(v, 1));
    } else {
        let q = v / 256;
        lemma_big_integer_round_trip(q);
        let t = big_integer(q);
        let s = big_integer(v);
        let b = bytes::base(t.len()) as int;
        assert(s == t.push((v % 256) as u8));
        assert(s.drop_last() =~= t);
        assert(bytes::base(s.len()) == 256 * b);
        assert(bytes::be_value(s) == 256 * bytes::be_value(t) + v % 256);
        bytes::lemma_be_value_round_trip(t);
        assert(b % 2 == 0) by {
            assert(b == 256 * bytes::base((t.len() - 1) as nat));
        }
        lemma_signed_step(v, q, bytes::be_value(t) as int, b);
    }
}

/// No shorter two's complement leads back to the number: one byte less would
/// not hold it.
pub proof fn lemma_big_integer_least(v: int)
    requires
        big_integer(v).len() >= 2,
    ensures
        !(-(bytes::base((big_integer(v).len() - 1) as nat) as int) <= 2 * v < bytes::base(
            (big_integer(v).len() - 1) as nat,
        )),
    decreases (if v < 0 { -v } else { v }),
{
    let q = v / 256;
    let t = big_integer(q);
    lemma_big_integer_round_trip(q);
    assert(big_integer(v).len() == t.len() + 1);
    let b = bytes::base(t.len()) as int;
    if t.len() >= 2 {
        lemma_big_integer_least(q);
        let m = (t.len() - 1) as nat;
        let c = bytes::base(m) as int;
        let d = bytes::base((m - 1) as nat) as int;
        assert(b == 256 * c && c == 256 * d);
        if 2 * q >= c {
            assert(2 * v >= b);
        } else {
            assert(2 * q < -c);
            assert(q < -128 * d);
            assert(2 * v < -b);
        }
    } else {
        bytes::lemma_bases();
        assert(b == 256);
    }
}

/// The two's complement of a 128-bit number has at most sixteen bytes.
pub proof fn lemma_big_integer_len(v: int, n: nat)
    requires
        n >= 1,
        -(bytes::base(n) as int) <= 2 * v < bytes::base(n),
    ensures
        1 <= big_integer(v).len() <= n,
    decreases n,
{
    reveal_with_fuel(bytes::base, 2);
    if !(-128 <= v < 128) {
        if n >= 2 {
            let b = bytes::base((n - 1) as nat);
            assert(b % 256 == 0) by {
                assert(b == 256 * bytes::base((n - 2) as nat));
            }
            lemma_big_integer_len(v / 256, (n - 1) as nat);
        }
    }
}

/// A cell that a column accepts is stored as a value of the column's type.
pub proof fn lemma_value_of_matches(dt: DataType, c: CellView)
    requires
        cell_error(dt, c) is None,
        c != CellView::Null,
        cell_fits(c),
    ensures
        value_matches(dt, value_of(dt, c)),
        value_fits(value_of(dt, c)),
        stored(dt, c).len() >= 1,
        types::width(dt) > 0 ==> stored(dt, c).len() == types::width(dt),
{
    bytes::lemma_bases();
    match c {
        CellView::Decimal128(x) => {
            lemma_big_integer_len(x as int, 16);
        },
        _ => {},
    }
    lemma_value_bytes_len(dt, value_of(dt, c));
}

/// A cell that loses nothing when it is stored is read back as itself.
pub proof fn lemma_cell_round_trip(dt: DataType, c: CellView)
    requires
        cell_error(dt, c) is None,
        c != CellView::Null,
        exact_cell(dt, c),
    ensures
        cell_of(dt, value_of(dt, c)) == Ok::<CellView, Error>(c),
{
    bytes::lemma_bases();
    match c {
        CellView::Decimal128(x) => {
            lemma_big_integer_len(x as int, 16);
            lemma_big_integer_round_trip(x as int);
        },
        _ => {},
    }
}

impl Value {
    /// Whether this is the null value.
    pub fn is_null(&self) -> (r: bool)
        ensures
            r == (self@ == ValueView::Null),
    {
        match self {
            Value::Null => true,
            _ => false,
        }
    }

    /// A copy of the value.
    pub fn duplicate(&self) -> (r: Value)
        ensures
            r@ == self@,
    {
        match self {
            Value::Null => Value::Null,
            Value::Boolean(x) => Value::Boolean(*x),
            Value::TinyInt(x) => Value::TinyInt(*x),
            Value::SmallInt(x) => Value::SmallInt(*x),
            Value::Integer(x) => Value::Integer(*x),
            Value::BigInt(x) => Value::BigInt(*x),
            Value::Float(x) => Value::Float(*x),
            Value::Double(x) => Value::Double(*x),
            Value::Date(x) => Value::Date(*x),
            Value::Time(x) => Value::Time(*x),
            Value::DecimalCompact(x) => Value::DecimalCompact(*x),
            Value::DecimalLarge(b) => Value::DecimalLarge(duplicate_bytes(b)),
            Value::TimestampMillis(x) => Value::TimestampMillis(*x),
            Value::TimestampMicros(x) => Value::TimestampMicros(*x),
            Value::TimestampNanos { millis, nanos_of_milli } => Value::TimestampNanos {
                millis: *millis,
                nanos_of_milli: *nanos_of_milli,
            },
            Value::String(b) => Value::String(duplicate_bytes(b)),
            Value::Bytes(b) => Value::Bytes(duplicate_bytes(b)),
        }
    }

    /// The bytes of the value without any length prefix.
    pub fn to_be_bytes(&self) -> (r: Vec<u8>)
        ensures
            r@ == (match self@ {
                ValueView::DecimalLarge(b) => b,
                ValueView::String(b) => b,
                ValueView::Bytes(b) => b,
                v => value_bytes(v),
            }),
    {
        match self {
            Value::DecimalLarge(b) | Value::String(b) | Value::Bytes(b) => duplicate_bytes(b),
            _ => {
                let mut buf: Vec<u8> = Vec::new();
                write_value(&mut buf, self);
                assert(buf@ =~= value_bytes(self@));
                buf
            },
        }
    }
}

/// A copy of the bytes.
pub fn duplicate_bytes(b: &Vec<u8>) -> (r: Vec<u8>)
    ensures
        r@ == b@,
{
    let r: Vec<u8> = bytes::copy_range(b, 0, b.len());
    assert(r@ =~= b@);
    r
}

/// Appends the two's complement of `v` in `n` bytes.
pub fn write_signed(buf: &mut Vec<u8>, v: i64, n: usize)
    requires
        n == 1 || n == 2 || n == 4 || n == 8,
        -(bytes::base(n as nat) as int) <= 2 * v < bytes::base(n as nat),
    ensures
        final(buf)@ == old(buf)@ + be_signed(v as int, n as nat),
{
    proof {
        bytes::lemma_bases();
    }
    let u: u64 = if v >= 0 {
        v as u64
    } else if n == 1 {
        (v + 0x100) as u64
    } else if n == 2 {
        (v + 0x1_0000) as u64
    } else if n == 4 {
        (v + 0x1_0000_0000) as u64
    } else {
        (v as i128 + 0x1_0000_0000_0000_0000) as u64
    };
    bytes::write_be(buf, u, n);
}

/// Appends a byte string behind its length.
fn write_prefixed(buf: &mut Vec<u8>, b: &Vec<u8>)
    requires
        b@.len() <= u32::MAX,
    ensures
        final(buf)@ == old(buf)@ + (varint::leb(b@.len()) + b@),
{
    varint::encode(buf, b.len() as u32);
    bytes::append_bytes(buf, b);
    assert(buf@ =~= old(buf)@ + (varint::leb(b@.len()) + b@));
}

/// Appends the bytes of the value.
pub fn write_value(buf: &mut Vec<u8>, value: &Value)
    requires
        value_fits(value@),
    ensures
        final(buf)@ == old(buf)@ + value_bytes(value@),
{
    proof {
        bytes::lemma_bases();
    }
    match value {
        Value::Null => {
            assert(buf@ =~= old(buf)@ + value_bytes(value@));
        },
        Value::Boolean(x) => {
            buf.push(
                if *x {
                    1
                } else {
                    0
                },
            );
            assert(buf@ =~= old(buf)@ + value_bytes(value@));
        },
        Value::TinyInt(x) => write_signed(buf, *x as i64, 1),
        Value::SmallInt(x) => write_signed(buf, *x as i64, 2),
        Value::Integer(x) => write_signed(buf, *x as i64, 4),
        Value::BigInt(x) => write_signed(buf, *x, 8),
        Value::Float(x) => bytes::write_be(buf, *x as u64, 4),
        Value::Double(x) => bytes::write_be(buf, *x, 8),
        Value::Date(x) => write_signed(buf, *x as i64, 4),
        Value::Time(x) => write_signed(buf, *x as i64, 4),
        Value::DecimalCompact(x) => write_signed(buf, *x, 8),
        Value::DecimalLarge(b) => write_prefixed(buf, b),
        Value::TimestampMillis(x) => write_signed(buf, *x, 8),
        Value::TimestampMicros(x) => write_signed(buf, *x, 8),
        Value::TimestampNanos { millis, nanos_of_milli } => {
            write_signed(buf, *millis, 8);
            write_signed(buf, *nanos_of_milli as i64, 4);
            assert(buf@ =~= old(buf)@ + value_bytes(value@));
        },
        Value::String(b) => write_prefixed(buf, b),
        Value::Bytes(b) => write_prefixed(buf, b),
    }
}

/// The two's complement of the number in as few bytes as hold it.
pub fn i128_to_biginteger_bytes(val: i128) -> (r: Vec<u8>)
    ensures
        r@ == big_integer(val as int),
        1 <= r@.len() <= 16,
{
    proof {
        bytes::lemma_bases();
        lemma_big_integer_len(val as int, 16);
    }
    let mut r: Vec<u8> = Vec::with_capacity(16);
    append_biginteger(&mut r, val);
    assert(r@ =~= big_integer(val as int));
    r
}

fn append_biginteger(buf: &mut Vec<u8>, val: i128)
    ensures
        final(buf)@ == old(buf)@ + big_integer(val as int),
    decreases (if val < 0 { -val } else { val as int }),
{
    proof {
        bytes::lemma_bases();
    }
    if -128 <= val && val < 128 {
        let b: u8 = if val < 0 {
            (val + 256) as u8
        } else {
            val as u8
        };
        buf.push(b);
    } else {
        let quotient: i128 = if val >= 0 {
            val / 256
        } else {
            -((-(val + 1)) / 256) - 1
        };
        let rest: i128 = val - quotient * 256;
        append_biginteger(buf, quotient);
        buf.push(rest as u8);
    }
    assert(buf@ =~= old(buf)@ + big_integer(val as int));
}

/// The number in at most sixteen bytes of two's complement; no bytes stand for
/// zero.
pub fn biginteger_bytes_to_i128(b: &Vec<u8>) -> (v: i128)
    requires
        b@.len() <= 16,
    ensures
        v == big_integer_value(b@),
{
    if b.len() == 0 {
        return 0;
    }
    let first: u8 = b[0];
    let mut v: i128 = if first >= 128 {
        first as i128 - 256
    } else {
        first as i128
    };
    let mut i: usize = 1;
    proof {
        bytes::lemma_bases();
        let t = b@.subrange(0, 1);
        reveal_with_fuel(bytes::be_value, 2);
        assert(t.drop_last() =~= Seq::<u8>::empty());
        assert(bytes::be_value(t) == first as nat);
    }
    while i < b.len()
        invariant
            1 <= i <= b@.len() <= 16,
            v == big_integer_value(b@.subrange(0, i as int)),
        decreases b@.len() - i,
    {
        proof {
            let t = b@.subrange(0, i as int);
            let u = b@.subrange(0, i + 1);
            assert(u.drop_last() =~= t);
            bytes::lemma_be_value_round_trip(t);
            bytes::lemma_be_value_round_trip(u);
            let m = bytes::base((i - 1) as nat);
            assert(bytes::base(t.len()) == 256 * m);
            assert(bytes::base(u.len()) == 256 * bytes::base(t.len()));
            bytes::lemma_base_monotone((i + 1) as nat, 16);
            bytes::lemma_bases();
            assert(big_integer_value(u) == 256 * big_integer_value(t) + b@[i as int]);
        }
        v = v * 256 + b[i] as i128;
        i = i + 1;
    }
    assert(b@.subrange(0, i as int) =~= b@);
    v
}

/// Checks a cell of a column of the type.
pub fn check_cell(dt: &DataType, cell: &Cell) -> (r: Result<(), Error>)
    ensures
        match cell_error(*dt, cell@) {
            None => r is Ok,
            Some(e) => r is Err && r->Err_0 == e,
        },
{
    if let DataType::Unsupported = *dt {
        return Err(Error::UnsupportedType);
    }
    if let DataType::Timestamp(TimeUnit::Second, _) = *dt {
        return Err(Error::UnsupportedType);
    }
    let ok: bool = match cell {
        Cell::Null => true,
        Cell::Boolean(_) => matches!(*dt, DataType::Boolean),
        Cell::Int8(_) => matches!(*dt, DataType::Int8),
        Cell::Int16(_) => matches!(*dt, DataType::Int16),
        Cell::Int32(_) => matches!(*dt, DataType::Int32),
        Cell::Int64(_) => matches!(*dt, DataType::Int64),
        Cell::Float32(_) => matches!(*dt, DataType::Float32),
        Cell::Float64(_) => matches!(*dt, DataType::Float64),
        Cell::Date32(_) => matches!(*dt, DataType::Date32),
        Cell::Time32(_) => matches!(*dt, DataType::Time32(_)),
        Cell::Utf8(text) => {
            if !matches!(*dt, DataType::Utf8) {
                return Err(Error::ColumnTypeMismatch);
            }
            if !types::is_utf8(text) {
                return Err(Error::TextNotUtf8);
            }
            true
        },
        Cell::Binary(_) => matches!(*dt, DataType::Binary),
        Cell::Decimal128(_) => matches!(*dt, DataType::Decimal128(_, _)),
        Cell::TimestampMillis(_) => matches!(*dt, DataType::Timestamp(TimeUnit::Millisecond, _)),
        Cell::TimestampMicros(_) => matches!(*dt, DataType::Timestamp(TimeUnit::Microsecond, _)),
        Cell::TimestampNanos(_) => matches!(*dt, DataType::Timestamp(TimeUnit::Nanosecond, _)),
        Cell::LegacyTimestampNanos(m, n) => {
            if !matches!(*dt, DataType::LegacyTimestampNanos) {
                return Err(Error::ColumnTypeMismatch);
            }
            return match (m, n) {
                (Some(_), Some(nanos)) => validate_timestamp_nanos_pair(*nanos),
                _ => Err(Error::LegacyChildNull),
            };
        },
    };
    if ok {
        Ok(())
    } else {
        Err(Error::ColumnTypeMismatch)
    }
}

fn validate_timestamp_nanos_pair(nanos: i32) -> (r: Result<(), Error>)
    ensures
        r == (if 0 <= nanos < 1_000_000 {
            Ok::<(), Error>(())
        } else {
            Err(Error::LegacyInvalidNanos)
        }),
{
    if types::is_valid_nanos_of_milli(nanos) {
        Ok(())
    } else {
        Err(Error::LegacyInvalidNanos)
    }
}

/// Appends the bytes that store the cell of a column of the type.
pub fn write_typed_value(buf: &mut Vec<u8>, dt: &DataType, cell: &Cell)
    requires
        cell_error(*dt, cell@) is None,
        cell@ != CellView::Null,
        cell_fits(cell@),
    ensures
        final(buf)@ == old(buf)@ + stored(*dt, cell@),
{
    proof {
        bytes::lemma_bases();
    }
    match cell {
        Cell::Null => {},
        Cell::Boolean(x) => {
            buf.push(
                if *x {
                    1
                } else {
                    0
                },
            );
            assert(buf@ =~= old(buf)@ + stored(*dt, cell@));
        },
        Cell::Int8(x) => write_signed(buf, *x as i64, 1),
        Cell::Int16(x) => write_signed(buf, *x as i64, 2),
        Cell::Int32(x) => write_signed(buf, *x as i64, 4),
        Cell::Int64(x) => write_signed(buf, *x, 8),
        Cell::Float32(x) => bytes::write_be(buf, *x as u64, 4),
        Cell::Float64(x) => bytes::write_be(buf, *x, 8),
        Cell::Date32(x) => write_signed(buf, *x as i64, 4),
        Cell::Time32(x) => write_signed(buf, *x as i64, 4),
        Cell::Utf8(b) => write_prefixed(buf, b),
        Cell::Binary(b) => write_prefixed(buf, b),
        Cell::Decimal128(x) => {
            if types::fixed_width(dt) == 8 {
                write_signed(buf, truncate_to_i64(*x), 8);
            } else {
                let b: Vec<u8> = i128_to_biginteger_bytes(*x);
                write_prefixed(buf, &b);
            }
        },
        Cell::TimestampMillis(x) => write_signed(buf, *x, 8),
        Cell::TimestampMicros(x) => write_signed(buf, *x, 8),
        Cell::TimestampNanos(x) => {
            let (millis, nanos): (i64, i32) = types::ns_to_millis_nanos(*x);
            write_signed(buf, millis, 8);
            write_signed(buf, nanos as i64, 4);
            assert(buf@ =~= old(buf)@ + stored(*dt, cell@));
        },
        Cell::LegacyTimestampNanos(m, n) => {
            if let (Some(millis), Some(nanos)) = (m, n) {
                write_signed(buf, *millis, 8);
                write_signed(buf, *nanos as i64, 4);
            }
            assert(buf@ =~= old(buf)@ + stored(*dt, cell@));
        },
    }
}

/// The low 64 bits of the number.
pub fn truncate_to_i64(x: i128) -> (r: i64)
    ensures
        r == low_i64(x as int),
{
    proof {
        bytes::lemma_bases();
    }
    let base: i128 = 0x1_0000_0000_0000_0000;
    let low: i128 = if x >= 0 {
        x % base
    } else {
        base - 1 - (-(x + 1)) % base
    };
    if low >= 0x8000_0000_0000_0000 {
        (low - base) as i64
    } else {
        low as i64
    }
}

/// Reads a two's complement number of `n` bytes at `pos`.
pub fn read_signed(buf: &[u8], pos: usize, n: usize) -> (v: i64)
    requires
        n == 1 || n == 2 || n == 4 || n == 8,
        pos + n <= buf@.len(),
    ensures
        v == signed_value(buf@.subrange(pos as int, pos + n)),
        -(bytes::base(n as nat) as int) <= 2 * v < bytes::base(n as nat),
{
    let u: u64 = bytes::read_be(buf, pos, n);
    proof {
        bytes::lemma_bases();
        bytes::lemma_be_value_round_trip(buf@.subrange(pos as int, pos + n));
    }
    if n == 1 {
        if u >= 0x80 {
            u as i64 - 0x100
        } else {
            u as i64
        }
    } else if n == 2 {
        if u >= 0x8000 {
            u as i64 - 0x1_0000
        } else {
            u as i64
        }
    } else if n == 4 {
        if u >= 0x8000_0000 {
            u as i64 - 0x1_0000_0000
        } else {
            u as i64
        }
    } else if u >= 0x8000_0000_0000_0000 {
        (u as i128 - 0x1_0000_0000_0000_0000) as i64
    } else {
        u as i64
    }
}

/// Reads a value of a fixed-width type at `pos`.
pub fn read_typed_value(dt: &DataType, buf: &[u8], pos: usize) -> (v: Value)
    requires
        types::width(*dt) > 0,
        pos + types::width(*dt) <= buf@.len(),
    ensures
        v@ == typed_value(*dt, buf@.subrange(pos as int, pos + types::width(*dt))),
{
    proof {
        bytes::lemma_bases();
        bytes::lemma_be_value_round_trip(
            buf@.subrange(pos as int, pos + types::width(*dt)),
        );
        assert(pos < buf.len());
    }
    match *dt {
        DataType::Boolean => Value::Boolean(buf[pos] != 0),
        DataType::Int8 => Value::TinyInt(read_signed(buf, pos, 1) as i8),
        DataType::Int16 => Value::SmallInt(read_signed(buf, pos, 2) as i16),
        DataType::Int32 => Value::Integer(read_signed(buf, pos, 4) as i32),
        DataType::Date32 => Value::Date(read_signed(buf, pos, 4) as i32),
        DataType::Time32(_) => Value::Time(read_signed(buf, pos, 4) as i32),
        DataType::Float32 => Value::Float(bytes::read_be(buf, pos, 4) as u32),
        DataType::Int64 => Value::BigInt(read_signed(buf, pos, 8)),
        DataType::Float64 => Value::Double(bytes::read_be(buf, pos, 8)),
        DataType::Decimal128(_, _) => Value::DecimalCompact(read_signed(buf, pos, 8)),
        DataType::Timestamp(TimeUnit::Millisecond, _) => Value::TimestampMillis(
            read_signed(buf, pos, 8),
        ),
        DataType::Timestamp(TimeUnit::Microsecond, _) => Value::TimestampMicros(
            read_signed(buf, pos, 8),
        ),
        _ => {
            assert(pos + 12 <= buf.len());
            let millis: i64 = read_signed(buf, pos, 8);
            let nanos_of_milli: i32 = read_signed(buf, pos + 8, 4) as i32;
            proof {
                let w = buf@.subrange(pos as int, pos + 12);
                assert(w.subrange(0, 8) =~= buf@.subrange(pos as int, pos + 8));
                assert(w.subrange(8, 12) =~= buf@.subrange(pos + 8, pos + 12));
            }
            Value::TimestampNanos { millis, nanos_of_milli }
        },
    }
}

/// Reads a variable-length value at `pos`, and its size.
pub fn read_variable_value(dt: &DataType, buf: &[u8], pos: usize) -> (r: Result<
    (Value, usize),
    Error,
>)
    ensures
        match variable_at(*dt, buf@, pos as int) {
            Ok((v, size)) => r is Ok && r->Ok_0.0@ == v && r->Ok_0.1 == size,
            Err(e) => r is Err && r->Err_0 == e,
        },
{
    let mut p: usize = pos;
    proof {
        varint::lemma_parse_end(buf@, pos as int, 5);
    }
    let len: usize = match varint::decode(buf, &mut p) {
        Ok(v) => v as usize,
        Err(_) => {
            return Err(Error::ValueVarint);
        },
    };
    if len > buf.len() - p {
        return Err(Error::ValueTruncated);
    }
    let b: Vec<u8> = bytes::copy_range(buf, p, p + len);
    let value: Value = match *dt {
        DataType::Utf8 => Value::String(b),
        DataType::Binary => Value::Bytes(b),
        DataType::Decimal128(_, _) => Value::DecimalLarge(b),
        _ => Value::Null,
    };
    Ok((value, p + len - pos))
}

/// Reads a value of the type at `pos`, and its size; `short` is the error for a
/// fixed-width value that is cut off.
pub fn read_value_at(dt: &DataType, buf: &[u8], pos: usize, short: Error) -> (r: Result<
    (Value, usize),
    Error,
>)
    ensures
        match value_at(*dt, buf@, pos as int, short) {
            Ok((v, size)) => r is Ok && r->Ok_0.0@ == v && r->Ok_0.1 == size && size >= 1 && pos
                + size <= buf@.len(),
            Err(e) => r is Err && r->Err_0 == e,
        },
{
    let w: i32 = types::fixed_width(dt);
    if w > 0 {
        let len: usize = buf.len();
        if len < w as usize || pos > len - w as usize {
            return Err(short);
        }
        Ok((read_typed_value(dt, buf, pos), w as usize))
    } else {
        proof {
            varint::lemma_parse_end(buf@, pos as int, 5);
        }
        read_variable_value(dt, buf, pos)
    }
}

fn take_int32(v: &Value) -> (x: i32)
    ensures
        x == int32_of(v@),
{
    match v {
        Value::Integer(x) | Value::Date(x) | Value::Time(x) => *x,
        _ => 0,
    }
}

fn take_int64(v: &Value) -> (x: i64)
    ensures
        x == int64_of(v@),
{
    match v {
        Value::BigInt(x) | Value::DecimalCompact(x) | Value::TimestampMillis(x)
        | Value::TimestampMicros(x) => *x,
        _ => 0,
    }
}

fn take_bytes(v: Value) -> (b: Vec<u8>)
    ensures
        b@ == bytes_of(v@),
{
    match v {
        Value::String(b) | Value::Bytes(b) | Value::DecimalLarge(b) => b,
        _ => Vec::new(),
    }
}

/// The cell that a stored value of a column of the type stands for.
pub fn build_cell(dt: &DataType, v: Value) -> (r: Result<Cell, Error>)
    ensures
        match cell_of(*dt, v@) {
            Ok(c) => r is Ok && r->Ok_0@ == c,
            Err(e) => r is Err && r->Err_0 == e,
        },
{
    Ok(
        match *dt {
            DataType::Boolean => Cell::Boolean(
                match v {
                    Value::Boolean(x) => x,
                    _ => false,
                },
            ),
            DataType::Int8 => Cell::Int8(
                match v {
                    Value::TinyInt(x) => x,
                    _ => 0,
                },
            ),
            DataType::Int16 => Cell::Int16(
                match v {
                    Value::SmallInt(x) => x,
                    _ => 0,
                },
            ),
            DataType::Int32 => Cell::Int32(take_int32(&v)),
            DataType::Date32 => Cell::Date32(take_int32(&v)),
            DataType::Time32(_) => Cell::Time32(take_int32(&v)),
            DataType::Int64 => Cell::Int64(take_int64(&v)),
            DataType::Float32 => Cell::Float32(
                match v {
                    Value::Float(x) => x,
                    _ => 0,
                },
            ),
            DataType::Float64 => Cell::Float64(
                match v {
                    Value::Double(x) => x,
                    _ => 0,
                },
            ),
            DataType::Utf8 => {
                let text: Vec<u8> = take_bytes(v);
                if !types::is_utf8(&text) {
                    return Err(Error::CorruptText);
                }
                Cell::Utf8(text)
            },
            DataType::Decimal128(p, _) => {
                if p <= 18 {
                    Cell::Decimal128(take_int64(&v) as i128)
                } else {
                    let b: Vec<u8> = take_bytes(v);
                    if b.len() > 16 {
                        return Err(Error::DecimalTooWide);
                    }
                    Cell::Decimal128(biginteger_bytes_to_i128(&b))
                }
            },
            DataType::Timestamp(TimeUnit::Millisecond, _) => Cell::TimestampMillis(take_int64(&v)),
            DataType::Timestamp(TimeUnit::Microsecond, _) => Cell::TimestampMicros(take_int64(&v)),
            DataType::Timestamp(TimeUnit::Nanosecond, _) => {
                let (millis, nanos): (i64, i32) = match v {
                    Value::TimestampNanos { millis, nanos_of_milli } => (millis, nanos_of_milli),
                    _ => (0, 0),
                };
                match types::millis_nanos_to_ns(millis, nanos) {
                    Ok(ns) => Cell::TimestampNanos(ns),
                    Err(e) => {
                        return Err(e);
                    },
                }
            },
            DataType::LegacyTimestampNanos => match v {
                Value::TimestampNanos { millis, nanos_of_milli } => Cell::LegacyTimestampNanos(
                    Some(millis),
                    Some(nanos_of_milli),
                ),
                _ => Cell::LegacyTimestampNanos(Some(0), Some(0)),
            },
            _ => Cell::Binary(take_bytes(v)),
        },
    )
}

} // verus!
