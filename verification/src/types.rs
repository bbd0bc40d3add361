//! Column types, and how a field's type is written in a schema block.

use crate::bytes;
use crate::error::Error;
use crate::varint;
use vstd::prelude::*;
use vstd::string::*;
use vstd::utf8;

verus! {

/// Nanoseconds in a millisecond.
pub const NANOS_PER_MILLI: i64 = 1_000_000;

/// The resolution of a time or timestamp.
#[derive(Debug, Clone, Copy, PartialEq, Eq, Structural)]
pub enum TimeUnit {
    Second,
    Millisecond,
    Microsecond,
    Nanosecond,
}

/// The type of a column.
#[derive(Debug, Clone, Copy, PartialEq, Eq, Structural)]
pub enum DataType {
    Boolean,
    Int8,
    Int16,
    Int32,
    Int64,
    Float32,
    Float64,
    Date32,
    Time32(TimeUnit),
    Utf8,
    Binary,
    /// Precision and scale.
    Decimal128(u8, i8),
    /// Unit, and whether the field names a time zone.
    Timestamp(TimeUnit, bool),
    /// The struct of `millis: Int64` and `nanos_of_milli: Int32` that stands for
    /// a timestamp in nanoseconds.
    LegacyTimestampNanos,
    /// Any type that the format does not store.
    Unsupported,
}

/// A named column type. `timezone` holds a name exactly when the type is a
/// timestamp with a time zone.
#[derive(Debug, Clone, PartialEq, Eq)]
pub struct Field {
    pub name: String,
    pub data_type: DataType,
    pub nullable: bool,
    pub timezone: Option<String>,
}

/// The mathematical content of a [`Field`].
pub struct FieldView {
    pub name: Seq<char>,
    pub data_type: DataType,
    pub nullable: bool,
    pub timezone: Option<Seq<char>>,
}

impl View for Field {
    type V = FieldView;

    open spec fn view(&self) -> FieldView {
        FieldView {
            name: self.name@,
            data_type: self.data_type,
            nullable: self.nullable,
            timezone: match self.timezone {
                Some(tz) => Some(tz@),
                None => None,
            },
        }
    }
}

impl FieldView {
    /// A time zone is there exactly where the type asks for one, and short enough
    /// for its length field.
    pub open spec fn well_formed(self) -> bool {
        match self.data_type {
            DataType::Timestamp(_, true) => self.timezone is Some && utf8::encode_utf8(
                self.timezone->0,
            ).len() <= u32::MAX,
            _ => self.timezone is None,
        }
    }
}

/// The bytes a value of the type takes, or -1 where that depends on the value.
pub open spec fn width(dt: DataType) -> int {
    match dt {
        DataType::Boolean | DataType::Int8 => 1,
        DataType::Int16 => 2,
        DataType::Int32 | DataType::Date32 | DataType::Time32(_) | DataType::Float32 => 4,
        DataType::Int64 | DataType::Float64 => 8,
        DataType::Decimal128(p, _) => if p <= 18 {
            8
        } else {
            -1
        },
        DataType::Timestamp(TimeUnit::Millisecond, _) | DataType::Timestamp(
            TimeUnit::Microsecond,
            _,
        ) => 8,
        DataType::Timestamp(TimeUnit::Nanosecond, _) => 12,
        DataType::LegacyTimestampNanos => 12,
        _ => -1,
    }
}

/// Whether the format stores columns of the type.
pub open spec fn valid_type(dt: DataType) -> Result<(), Error> {
    match dt {
        DataType::Time32(TimeUnit::Millisecond) => Ok(()),
        DataType::Time32(_) | DataType::Unsupported => Err(Error::UnsupportedType),
        DataType::Decimal128(p, _) => if p == 0 || p > 38 {
            Err(Error::DecimalPrecision)
        } else {
            Ok(())
        },
        DataType::Timestamp(TimeUnit::Second, _) => Err(Error::UnsupportedTimestampUnit),
        _ => Ok(()),
    }
}

/// Whether cells of one type are those of the other: decimals of any precision, and
/// timestamps in the same unit.
pub open spec fn same_cells(a: DataType, b: DataType) -> bool {
    match (a, b) {
        (DataType::Decimal128(_, _), DataType::Decimal128(_, _)) => true,
        (DataType::Timestamp(u, _), DataType::Timestamp(v, _)) => u == v,
        _ => a == b,
    }
}

/// Whether cells of one type are those of the other.
pub fn has_same_cells(a: &DataType, b: &DataType) -> (r: bool)
    ensures
        r == same_cells(*a, *b),
{
    match (*a, *b) {
        (DataType::Decimal128(_, _), DataType::Decimal128(_, _)) => true,
        (DataType::Timestamp(u, _), DataType::Timestamp(v, _)) => u == v,
        _ => *a == *b,
    }
}

/// The tag of a type in a schema block.
pub open spec fn type_tag(dt: DataType) -> u8 {
    match dt {
        DataType::Boolean => 0,
        DataType::Int8 => 1,
        DataType::Int16 => 2,
        DataType::Int32 => 3,
        DataType::Int64 => 4,
        DataType::Float32 => 5,
        DataType::Float64 => 6,
        DataType::Date32 => 7,
        DataType::Utf8 => 10,
        DataType::Binary => 13,
        DataType::Decimal128(_, _) => 14,
        DataType::Time32(_) => 15,
        DataType::Timestamp(_, zoned) => if zoned {
            17
        } else {
            16
        },
        DataType::LegacyTimestampNanos => 16,
        DataType::Unsupported => 255,
    }
}

/// The precision of a type, zero where it has none.
pub open spec fn precision(dt: DataType) -> u32 {
    match dt {
        DataType::Decimal128(p, _) => p as u32,
        DataType::Timestamp(TimeUnit::Millisecond, _) => 3,
        DataType::Timestamp(TimeUnit::Microsecond, _) => 6,
        DataType::Timestamp(TimeUnit::Nanosecond, _) => 9,
        DataType::LegacyTimestampNanos => 9,
        DataType::Time32(TimeUnit::Millisecond) => 3,
        _ => 0,
    }
}

/// A scale as the 32 bits it is stored in.
pub open spec fn scale_code(scale: i8) -> u32 {
    if scale < 0 {
        (scale + 0x1_0000_0000) as u32
    } else {
        scale as u32
    }
}

/// The scale whose eight low bits are those of `code`.
pub open spec fn scale_decoded(code: u32) -> i8 {
    bytes::signed((code % 256) as nat, 1) as i8
}

/// The scale of a type as it is stored, zero where it has none.
pub open spec fn scale(dt: DataType) -> u32 {
    match dt {
        DataType::Decimal128(_, s) => scale_code(s),
        _ => 0,
    }
}

/// What follows the two header bytes of a type description.
pub open spec fn type_parameters(f: FieldView) -> Seq<u8> {
    match f.data_type {
        DataType::Decimal128(p, s) => varint::leb(p as nat) + varint::leb(scale_code(s) as nat),
        DataType::Time32(_) => varint::leb(precision(f.data_type) as nat),
        DataType::Timestamp(_, false) => varint::leb(precision(f.data_type) as nat),
        DataType::Timestamp(_, true) => varint::leb(precision(f.data_type) as nat) + varint::leb(
            utf8::encode_utf8(f.timezone->0).len(),
        ) + utf8::encode_utf8(f.timezone->0),
        DataType::LegacyTimestampNanos => varint::leb(9),
        _ => Seq::empty(),
    }
}

/// The description of a field's type.
pub open spec fn field_bytes(f: FieldView) -> Seq<u8> {
    seq![
        type_tag(f.data_type),
        if f.nullable {
            1u8
        } else {
            0u8
        },
    ] + type_parameters(f)
}

/// The timestamp unit that a precision stands for.
pub open spec fn unit_for(precision: u32) -> TimeUnit {
    if precision <= 3 {
        TimeUnit::Millisecond
    } else if precision <= 6 {
        TimeUnit::Microsecond
    } else {
        TimeUnit::Nanosecond
    }
}

/// The type and time zone that a tag and the parameters from `p` on describe,
/// and the position behind them.
pub open spec fn parse_type(tag: u8, s: Seq<u8>, p: int) -> Result<
    (DataType, Option<Seq<char>>, int),
    Error,
> {
    let first = varint::parse_u32(s, p);
    let p1 = varint::parse_end(s, p, 5);
    let second = varint::parse_u32(s, p1);
    let p2 = varint::parse_end(s, p1, 5);
    if tag <= 7 {
        Ok(
            (
                if tag == 0 {
                    DataType::Boolean
                } else if tag == 1 {
                    DataType::Int8
                } else if tag == 2 {
                    DataType::Int16
                } else if tag == 3 {
                    DataType::Int32
                } else if tag == 4 {
                    DataType::Int64
                } else if tag == 5 {
                    DataType::Float32
                } else if tag == 6 {
                    DataType::Float64
                } else {
                    DataType::Date32
                },
                None,
                p,
            ),
        )
    } else if tag == 10 {
        Ok((DataType::Utf8, None, p))
    } else if tag == 13 {
        Ok((DataType::Binary, None, p))
    } else if tag > 17 {
        Err(Error::UnknownTypeTag)
    } else if first is Err {
        Err(first->Err_0)
    } else if tag == 8 || tag == 9 {
        Ok((DataType::Utf8, None, p1))
    } else if tag == 11 || tag == 12 {
        Ok((DataType::Binary, None, p1))
    } else if tag == 15 {
        Ok((DataType::Time32(TimeUnit::Millisecond), None, p1))
    } else if tag == 16 {
        Ok((DataType::Timestamp(unit_for(first->Ok_0), false), None, p1))
    } else if second is Err {
        Err(second->Err_0)
    } else if tag == 14 {
        Ok(
            (
                DataType::Decimal128((first->Ok_0 % 256) as u8, scale_decoded(second->Ok_0)),
                None,
                p2,
            ),
        )
    } else if p2 + second->Ok_0 > s.len() {
        Err(Error::TimezoneEof)
    } else if !utf8::valid_utf8(s.subrange(p2, p2 + second->Ok_0)) {
        Err(Error::TimezoneUtf8)
    } else {
        Ok(
            (
                DataType::Timestamp(unit_for(first->Ok_0), true),
                Some(utf8::decode_utf8(s.subrange(p2, p2 + second->Ok_0))),
                p2 + second->Ok_0,
            ),
        )
    }
}

/// The field that stands at `p`, and the position behind it.
pub open spec fn parse_field(name: Seq<char>, s: Seq<u8>, p: int) -> Result<
    (FieldView, int),
    Error,
> {
    if p + 1 >= s.len() {
        Err(Error::TypeHeaderEof)
    } else {
        match parse_type(s[p], s, p + 2) {
            Err(e) => Err(e),
            Ok((dt, tz, end)) => Ok(
                (
                    FieldView { name, data_type: dt, nullable: s[p + 1] != 0, timezone: tz },
                    end,
                ),
            ),
        }
    }
}

/// Where reading a field at `p` stops when it fails: behind what was read of it.
pub open spec fn field_stop(s: Seq<u8>, p: int) -> int {
    let p1 = varint::parse_end(s, p + 2, 5);
    if p + 1 >= s.len() {
        p
    } else if s[p] > 17 {
        p + 2
    } else if varint::parse_u32(s, p + 2) is Err {
        p1
    } else {
        varint::parse_end(s, p1, 5)
    }
}

/// The type that a stored type is read back as: a legacy timestamp reads as one
/// in nanoseconds, every other type as itself.
pub open spec fn stored_type(dt: DataType) -> DataType {
    match dt {
        DataType::LegacyTimestampNanos => DataType::Timestamp(TimeUnit::Nanosecond, false),
        _ => dt,
    }
}

proof fn lemma_decimal_round_trip(pr: u8, sc: i8, s: Seq<u8>, p: int)
    requires
        bytes::has_at(s, p, varint::leb(pr as nat) + varint::leb(scale_code(sc) as nat)),
    ensures
        parse_type(14, s, p) == Ok::<(DataType, Option<Seq<char>>, int), Error>(
            (
                DataType::Decimal128(pr, sc),
                None,
                p + (varint::leb(pr as nat) + varint::leb(scale_code(sc) as nat)).len(),
            ),
        ),
{
    let a = varint::leb(pr as nat);
    let b = varint::leb(scale_code(sc) as nat);
    bytes::lemma_has_at_split(s, p, a, b);
    varint::lemma_u32_round_trip(s, p, pr as u32);
    varint::lemma_u32_round_trip(s, p + a.len(), scale_code(sc));
    bytes::lemma_bases();
    assert(scale_decoded(scale_code(sc)) == sc);
}

proof fn lemma_zoned_round_trip(unit: TimeUnit, zone: Seq<char>, s: Seq<u8>, p: int)
    requires
        valid_type(DataType::Timestamp(unit, true)) is Ok,
        utf8::encode_utf8(zone).len() <= u32::MAX,
        bytes::has_at(
            s,
            p,
            varint::leb(precision(DataType::Timestamp(unit, true)) as nat) + varint::leb(
                utf8::encode_utf8(zone).len(),
            ) + utf8::encode_utf8(zone),
        ),
    ensures
        parse_type(17, s, p) == Ok::<(DataType, Option<Seq<char>>, int), Error>(
            (
                DataType::Timestamp(unit, true),
                Some(zone),
                p + (varint::leb(precision(DataType::Timestamp(unit, true)) as nat) + varint::leb(
                    utf8::encode_utf8(zone).len(),
                ) + utf8::encode_utf8(zone)).len(),
            ),
        ),
{
    let pr = precision(DataType::Timestamp(unit, true));
    let tz = utf8::encode_utf8(zone);
    let a = varint::leb(pr as nat);
    let b = varint::leb(tz.len());
    bytes::lemma_has_at_split(s, p, a + b, tz);
    bytes::lemma_has_at_split(s, p, a, b);
    varint::lemma_u32_round_trip(s, p, pr);
    varint::lemma_u32_round_trip(s, p + a.len(), tz.len() as u32);
    utf8::encode_utf8_valid_utf8(zone);
    utf8::encode_utf8_decode_utf8(zone);
}

proof fn lemma_type_round_trip(f: FieldView, s: Seq<u8>, p: int)
    requires
        valid_type(f.data_type) is Ok,
        f.well_formed(),
        bytes::has_at(s, p, type_parameters(f)),
    ensures
        parse_type(type_tag(f.data_type), s, p) == Ok::<
            (DataType, Option<Seq<char>>, int),
            Error,
        >((stored_type(f.data_type), f.timezone, p + type_parameters(f).len())),
{
    match f.data_type {
        DataType::Decimal128(pr, sc) => {
            lemma_decimal_round_trip(pr, sc, s, p);
        },
        DataType::Time32(_) => {
            varint::lemma_u32_round_trip(s, p, precision(f.data_type));
        },
        DataType::Timestamp(unit, zoned) => {
            if zoned {
                lemma_zoned_round_trip(unit, f.timezone->0, s, p);
            } else {
                varint::lemma_u32_round_trip(s, p, precision(f.data_type));
            }
        },
        DataType::LegacyTimestampNanos => {
            varint::lemma_u32_round_trip(s, p, 9);
        },
        _ => {},
    }
}

/// Reading the description of a field of a valid type gives the field back, a
/// legacy timestamp as a timestamp in nanoseconds.
pub proof fn lemma_field_round_trip(f: FieldView, s: Seq<u8>, p: int)
    requires
        valid_type(f.data_type) is Ok,
        f.well_formed(),
        bytes::has_at(s, p, field_bytes(f)),
    ensures
        parse_field(f.name, s, p) == Ok::<(FieldView, int), Error>(
            (
                FieldView { data_type: stored_type(f.data_type), ..f },
                p + field_bytes(f).len(),
            ),
        ),
{
    let head = seq![
        type_tag(f.data_type),
        if f.nullable {
            1u8
        } else {
            0u8
        },
    ];
    bytes::lemma_has_at_split(s, p, head, type_parameters(f));
    let w = s.subrange(p, p + 2);
    assert(w =~= head);
    assert(s[p] == w[0] && s[p + 1] == w[1]);
    lemma_type_round_trip(f, s, p + 2);
}

/// Where reading a field succeeds, it stops within the data.
pub proof fn lemma_parse_field_end(name: Seq<char>, s: Seq<u8>, p: int)
    requires
        0 <= p,
    ensures
        parse_field(name, s, p) is Ok ==> p < parse_field(name, s, p)->Ok_0.1 <= s.len(),
{
    varint::lemma_parse_end(s, p + 2, 5);
    varint::lemma_parse_end(s, varint::parse_end(s, p + 2, 5), 5);
}

/// Splitting nanoseconds and joining the parts gives the nanoseconds back.
pub proof fn lemma_nanos_round_trip(ns: i64)
    ensures
        0 <= ns as int % 1_000_000 < 1_000_000,
        (ns as int / 1_000_000) * 1_000_000 + ns as int % 1_000_000 == ns,
{
}

/// The bytes a value of the type takes, or -1 where that depends on the value.
pub fn fixed_width(dt: &DataType) -> (w: i32)
    ensures
        w == width(*dt),
{
    match *dt {
        DataType::Boolean | DataType::Int8 => 1,
        DataType::Int16 => 2,
        DataType::Int32 | DataType::Date32 | DataType::Time32(_) | DataType::Float32 => 4,
        DataType::Int64 | DataType::Float64 => 8,
        DataType::Decimal128(p, _) => if p <= 18 {
            8
        } else {
            -1
        },
        DataType::Timestamp(TimeUnit::Millisecond, _) => 8,
        DataType::Timestamp(TimeUnit::Microsecond, _) => 8,
        DataType::Timestamp(TimeUnit::Nanosecond, _) => 12,
        DataType::LegacyTimestampNanos => 12,
        _ => -1,
    }
}

/// Whether the type stores a timestamp in nanoseconds.
pub fn is_timestamp_nanos(dt: &DataType) -> (r: bool)
    ensures
        r == (width(*dt) == 12),
{
    match *dt {
        DataType::Timestamp(TimeUnit::Nanosecond, _) => true,
        DataType::LegacyTimestampNanos => true,
        _ => false,
    }
}

/// Whether a struct with these fields stands for a timestamp in nanoseconds.
pub fn is_timestamp_nanos_struct(fields: &Vec<Field>) -> (r: bool)
    ensures
        r == (fields@.len() == 2 && fields@[0].name@ == "millis"@ && fields@[0].data_type
            == DataType::Int64 && fields@[1].name@ == "nanos_of_milli"@ && fields@[1].data_type
            == DataType::Int32),
{
    fields.len() == 2 && same_str(&fields[0].name, "millis") && fields[0].data_type
        == DataType::Int64 && same_str(&fields[1].name, "nanos_of_milli") && fields[1].data_type
        == DataType::Int32
}

/// Whether the string holds exactly the given text.
pub fn same_str(a: &String, b: &str) -> (r: bool)
    ensures
        r == (a@ == b@),
{
    let r: bool = bytes::same_bytes(a.as_str().as_bytes(), b.as_bytes());
    proof {
        utf8::encode_utf8_decode_utf8(a@);
        utf8::encode_utf8_decode_utf8(b@);
    }
    r
}

/// Whether `nanos` is a count of nanoseconds within a millisecond.
pub fn is_valid_nanos_of_milli(nanos: i32) -> (r: bool)
    ensures
        r == (0 <= nanos < 1_000_000),
{
    0 <= nanos && nanos < 1_000_000
}

/// Splits nanoseconds into whole milliseconds, rounded down, and the rest.
pub fn ns_to_millis_nanos(ns: i64) -> (r: (i64, i32))
    ensures
        r.0 == ns as int / 1_000_000,
        r.1 == ns as int % 1_000_000,
{
    if ns >= 0 {
        (ns / NANOS_PER_MILLI, (ns % NANOS_PER_MILLI) as i32)
    } else {
        let below: i64 = -(ns + 1);
        (-(below / NANOS_PER_MILLI) - 1, (NANOS_PER_MILLI - 1 - below % NANOS_PER_MILLI) as i32)
    }
}

/// What joining milliseconds and nanoseconds gives.
pub open spec fn joined(millis: int, nanos: int) -> Result<i64, Error> {
    if !(0 <= nanos < 1_000_000) {
        Err(Error::InvalidNanosOfMilli)
    } else if !(i64::MIN <= millis * 1_000_000 + nanos <= i64::MAX) {
        Err(Error::TimestampOverflow)
    } else {
        Ok((millis * 1_000_000 + nanos) as i64)
    }
}

/// Joins milliseconds and the nanoseconds within them.
pub fn millis_nanos_to_ns(millis: i64, nanos: i32) -> (r: Result<i64, Error>)
    ensures
        r == joined(millis as int, nanos as int),
{
    if !is_valid_nanos_of_milli(nanos) {
        return Err(Error::InvalidNanosOfMilli);
    }
    let ns: i128 = millis as i128 * 1_000_000 + nanos as i128;
    if ns < i64::MIN as i128 || ns > i64::MAX as i128 {
        return Err(Error::TimestampOverflow);
    }
    Ok(ns as i64)
}

/// Checks that the format stores columns of the type.
pub fn validate_data_type(dt: &DataType) -> (r: Result<(), Error>)
    ensures
        r == valid_type(*dt),
{
    match *dt {
        DataType::Time32(TimeUnit::Millisecond) => Ok(()),
        DataType::Time32(_) | DataType::Unsupported => Err(Error::UnsupportedType),
        DataType::Decimal128(p, _) => if p == 0 || p > 38 {
            Err(Error::DecimalPrecision)
        } else {
            Ok(())
        },
        DataType::Timestamp(TimeUnit::Second, _) => Err(Error::UnsupportedTimestampUnit),
        _ => Ok(()),
    }
}

/// The tag of the type in a schema block.
pub fn data_type_to_type_byte(dt: &DataType) -> (tag: u8)
    requires
        *dt != DataType::Unsupported,
    ensures
        tag == type_tag(*dt),
{
    match *dt {
        DataType::Boolean => 0,
        DataType::Int8 => 1,
        DataType::Int16 => 2,
        DataType::Int32 => 3,
        DataType::Int64 => 4,
        DataType::Float32 => 5,
        DataType::Float64 => 6,
        DataType::Date32 => 7,
        DataType::Utf8 => 10,
        DataType::Binary => 13,
        DataType::Decimal128(_, _) => 14,
        DataType::Time32(_) => 15,
        DataType::Timestamp(_, zoned) => if zoned {
            17
        } else {
            16
        },
        DataType::LegacyTimestampNanos => 16,
        DataType::Unsupported => 255,
    }
}

/// The precision of the type, zero where it has none.
pub fn precision_of(dt: &DataType) -> (p: u32)
    ensures
        p == precision(*dt),
{
    match *dt {
        DataType::Decimal128(p, _) => p as u32,
        DataType::Timestamp(TimeUnit::Millisecond, _) => 3,
        DataType::Timestamp(TimeUnit::Microsecond, _) => 6,
        DataType::Timestamp(TimeUnit::Nanosecond, _) => 9,
        DataType::LegacyTimestampNanos => 9,
        DataType::Time32(TimeUnit::Millisecond) => 3,
        _ => 0,
    }
}

/// The scale of the type as 32 bits, zero where it has none.
pub fn scale_of(dt: &DataType) -> (s: u32)
    ensures
        s == scale(*dt),
{
    match *dt {
        DataType::Decimal128(_, s) => if s < 0 {
            (s as i64 + 0x1_0000_0000) as u32
        } else {
            s as u32
        },
        _ => 0,
    }
}

/// Appends the description of the field's type.
pub fn serialize_field(field: &Field, buf: &mut Vec<u8>)
    requires
        field.data_type != DataType::Unsupported,
        field@.well_formed(),
    ensures
        final(buf)@ == old(buf)@ + field_bytes(field@),
{
    let ghost start = buf@;
    buf.push(data_type_to_type_byte(&field.data_type));
    buf.push(
        if field.nullable {
            1
        } else {
            0
        },
    );
    let ghost head = buf@;
    proof {
        assert(start + field_bytes(field@) =~= head + type_parameters(field@));
    }
    match field.data_type {
        DataType::Decimal128(p, _) => {
            varint::encode(buf, p as u32);
            varint::encode(buf, scale_of(&field.data_type));
            assert(buf@ =~= head + type_parameters(field@));
        },
        DataType::Time32(_) => {
            varint::encode(buf, precision_of(&field.data_type));
        },
        DataType::Timestamp(_, _) => {
            varint::encode(buf, precision_of(&field.data_type));
            if let Some(tz) = &field.timezone {
                let tz_bytes: &[u8] = tz.as_str().as_bytes();
                varint::encode(buf, tz_bytes.len() as u32);
                bytes::append_bytes(buf, tz_bytes);
            }
            assert(buf@ =~= head + type_parameters(field@));
        },
        DataType::LegacyTimestampNanos => {
            varint::encode(buf, 9);
        },
        _ => {
            assert(buf@ =~= head + type_parameters(field@));
        },
    }
}

/// `String::from_utf8`: the text that the bytes spell, or nothing where they are
/// not UTF-8.
#[verifier::external_body]
pub(crate) fn string_from_utf8(text: Vec<u8>) -> (r: Option<String>)
    ensures
        r is Some <==> utf8::valid_utf8(text@),
        r is Some ==> r->0@ == utf8::decode_utf8(text@),
{
    String::from_utf8(text).ok()
}

/// `std::str::from_utf8`: whether the bytes are UTF-8.
#[verifier::external_body]
pub(crate) fn is_utf8(text: &[u8]) -> (r: bool)
    ensures
        r == utf8::valid_utf8(text@),
{
    std::str::from_utf8(text).is_ok()
}

fn unit_of(precision: u32) -> (u: TimeUnit)
    ensures
        u == unit_for(precision),
{
    if precision <= 3 {
        TimeUnit::Millisecond
    } else if precision <= 6 {
        TimeUnit::Microsecond
    } else {
        TimeUnit::Nanosecond
    }
}

/// Reads the description of a field's type at `*pos`. Where that succeeds, `*pos`
/// moves behind it.
pub fn deserialize_field(name: &str, buf: &[u8], pos: &mut usize) -> (r: Result<Field, Error>)
    ensures
        match parse_field(name@, buf@, *old(pos) as int) {
            Ok((f, end)) => r is Ok && r->Ok_0@ == f && *final(pos) == end,
            Err(e) => r is Err && r->Err_0 == e && *final(pos) == field_stop(
                buf@,
                *old(pos) as int,
            ),
        },
{
    let len: usize = buf.len();
    if len < 2 || *pos > len - 2 {
        return Err(Error::TypeHeaderEof);
    }
    let tag: u8 = buf[*pos];
    let nullable: bool = buf[*pos + 1] != 0;
    *pos = *pos + 2;
    let ghost p = *pos as int;
    proof {
        varint::lemma_parse_end(buf@, p, 5);
        varint::lemma_parse_end(buf@, varint::parse_end(buf@, p, 5), 5);
        bytes::lemma_bases();
    }
    let mut timezone: Option<String> = None;
    let data_type: DataType = if tag == 0 {
        DataType::Boolean
    } else if tag == 1 {
        DataType::Int8
    } else if tag == 2 {
        DataType::Int16
    } else if tag == 3 {
        DataType::Int32
    } else if tag == 4 {
        DataType::Int64
    } else if tag == 5 {
        DataType::Float32
    } else if tag == 6 {
        DataType::Float64
    } else if tag == 7 {
        DataType::Date32
    } else if tag == 10 {
        DataType::Utf8
    } else if tag == 13 {
        DataType::Binary
    } else if tag > 17 {
        return Err(Error::UnknownTypeTag);
    } else {
        let first: u32 = match varint::decode(buf, pos) {
            Ok(v) => v,
            Err(e) => {
                return Err(e);
            },
        };
        if tag == 8 || tag == 9 {
            DataType::Utf8
        } else if tag == 11 || tag == 12 {
            DataType::Binary
        } else if tag == 15 {
            DataType::Time32(TimeUnit::Millisecond)
        } else if tag == 16 {
            DataType::Timestamp(unit_of(first), false)
        } else {
            let second: u32 = match varint::decode(buf, pos) {
                Ok(v) => v,
                Err(e) => {
                    return Err(e);
                },
            };
            if tag == 14 {
                let low: u32 = second % 256;
                let scale: i8 = if low >= 128 {
                    (low as i32 - 256) as i8
                } else {
                    low as i8
                };
                DataType::Decimal128((first % 256) as u8, scale)
            } else {
                if second as usize > len - *pos {
                    return Err(Error::TimezoneEof);
                }
                let end: usize = *pos + second as usize;
                match string_from_utf8(bytes::copy_range(buf, *pos, end)) {
                    Some(tz) => {
                        timezone = Some(tz);
                    },
                    None => {
                        return Err(Error::TimezoneUtf8);
                    },
                }
                *pos = end;
                DataType::Timestamp(unit_of(first), true)
            }
        }
    };
    Ok(Field { name: name.to_owned(), data_type, nullable, timezone })
}

} // verus!
