//! The bytes of the format: how numbers, values, columns and footers are spelled.

use crate::bits;
use crate::blocks;
use crate::bytes;
use crate::error::Error;
use crate::format::{
    COMPRESSION_NONE, COMPRESSION_ZSTD, ENCODING_ALL_NULL, ENCODING_CONST, ENCODING_DICT,
    ENCODING_PLAIN, FOOTER_SIZE, MAGIC, VERSION,
};
use crate::layout;
use crate::layout::{Footer, GroupView, LayoutView};
use crate::reader;
use crate::schema;
use crate::schema::{ColumnMetaView, SchemaView};
use crate::stats;
use crate::stats::ColumnStatsView;
use crate::types;
use crate::types::{DataType, TimeUnit};
use crate::values;
use crate::values::ValueView;
use crate::varint;
use vstd::arithmetic::power2;
use vstd::prelude::*;
use vstd::utf8;

verus! {

/// The numbers of the format.
pub proof fn lemma_format_numbers()
    ensures
        FOOTER_SIZE == 32,
        VERSION == 1,
        MAGIC@ == seq![77u8, 79u8, 83u8, 65u8],
        COMPRESSION_NONE == 0,
        COMPRESSION_ZSTD == 1,
        ENCODING_ALL_NULL == 0,
        ENCODING_CONST == 1,
        ENCODING_DICT == 2,
        ENCODING_PLAIN == 3,
{
    assert(MAGIC@ =~= seq![77u8, 79u8, 83u8, 65u8]);
}

/// A number has its most significant byte first.
pub proof fn lemma_number_bytes(v: nat)
    ensures
        bytes::be(v, 1) == seq![(v % 256) as u8],
        bytes::be(v, 2) == seq![(v / 0x100 % 256) as u8, (v % 256) as u8],
        bytes::be(v, 4) == seq![
            (v / 0x100_0000 % 256) as u8,
            (v / 0x1_0000 % 256) as u8,
            (v / 0x100 % 256) as u8,
            (v % 256) as u8,
        ],
        bytes::be(v, 8) == seq![
            (v / 0x100_0000_0000_0000 % 256) as u8,
            (v / 0x1_0000_0000_0000 % 256) as u8,
            (v / 0x100_0000_0000 % 256) as u8,
            (v / 0x1_0000_0000 % 256) as u8,
            (v / 0x100_0000 % 256) as u8,
            (v / 0x1_0000 % 256) as u8,
            (v / 0x100 % 256) as u8,
            (v % 256) as u8,
        ],
{
    reveal_with_fuel(bytes::be, 9);
    assert(bytes::be(v, 1) =~= seq![(v % 256) as u8]);
    assert(bytes::be(v, 2) =~= seq![(v / 0x100 % 256) as u8, (v % 256) as u8]);
    assert(v / 256 / 256 == v / 0x1_0000);
    assert(v / 256 / 256 / 256 == v / 0x100_0000);
    assert(v / 256 / 256 / 256 / 256 == v / 0x1_0000_0000);
    assert(v / 256 / 256 / 256 / 256 / 256 == v / 0x100_0000_0000);
    assert(v / 256 / 256 / 256 / 256 / 256 / 256 == v / 0x1_0000_0000_0000);
    assert(v / 256 / 256 / 256 / 256 / 256 / 256 / 256 == v / 0x100_0000_0000_0000);
    assert(bytes::be(v, 4) =~= seq![
        (v / 0x100_0000 % 256) as u8,
        (v / 0x1_0000 % 256) as u8,
        (v / 0x100 % 256) as u8,
        (v % 256) as u8,
    ]);
    assert(bytes::be(v, 8) =~= seq![
        (v / 0x100_0000_0000_0000 % 256) as u8,
        (v / 0x1_0000_0000_0000 % 256) as u8,
        (v / 0x100_0000_0000 % 256) as u8,
        (v / 0x1_0000_0000 % 256) as u8,
        (v / 0x100_0000 % 256) as u8,
        (v / 0x1_0000 % 256) as u8,
        (v / 0x100 % 256) as u8,
        (v % 256) as u8,
    ]);
}

/// The size of a slot has its least significant byte first.
pub proof fn lemma_slot_size_bytes(v: nat)
    ensures
        bytes::le4(v) == seq![
            (v % 256) as u8,
            (v / 0x100 % 256) as u8,
            (v / 0x1_0000 % 256) as u8,
            (v / 0x100_0000 % 256) as u8,
        ],
{
    lemma_number_bytes(v);
    assert(bytes::le4(v) =~= seq![
        (v % 256) as u8,
        (v / 0x100 % 256) as u8,
        (v / 0x1_0000 % 256) as u8,
        (v / 0x100_0000 % 256) as u8,
    ]);
}

/// Bytes spell the number in which each counts 256 times what the next one counts.
pub proof fn lemma_bytes_number(s: Seq<u8>)
    ensures
        s.len() == 1 ==> bytes::be_value(s) == s[0],
        s.len() == 2 ==> bytes::be_value(s) == 0x100 * s[0] + s[1],
        s.len() == 4 ==> bytes::be_value(s) == 0x100_0000 * s[0] + 0x1_0000 * s[1] + 0x100 * s[2]
            + s[3],
        s.len() == 4 ==> bytes::le4_value(s) == s[0] + 0x100 * s[1] + 0x1_0000 * s[2] + 0x100_0000
            * s[3],
        s.len() == 8 ==> bytes::be_value(s) == 0x1_0000_0000 * bytes::be_value(s.take(4))
            + bytes::be_value(s.skip(4)),
{
    reveal_with_fuel(bytes::be_value, 9);
    if s.len() == 8 {
        let a = s.take(4);
        let b = s.skip(4);
        assert(bytes::be_value(b) == 0x100_0000 * s[4] + 0x1_0000 * s[5] + 0x100 * s[6] + s[7]) by {
            assert(b[0] == s[4] && b[1] == s[5] && b[2] == s[6] && b[3] == s[7]);
        }
        assert(bytes::be_value(a) == 0x100_0000 * s[0] + 0x1_0000 * s[1] + 0x100 * s[2] + s[3]) by {
            assert(a[0] == s[0] && a[1] == s[1] && a[2] == s[2] && a[3] == s[3]);
        }
    }
}

/// A number in groups of seven bits: the lowest group first, and all bytes but the last marked
/// as such.
pub proof fn lemma_varint_bytes(v: nat)
    ensures
        v < 128 ==> varint::leb(v) == seq![v as u8],
        v >= 128 ==> varint::leb(v).len() > 1 && varint::leb(v)[0] == v % 128 + 128
            && varint::leb(v).drop_first() == varint::leb(v / 128),
{
    if v >= 128 {
        assert(varint::leb(v).drop_first() =~= varint::leb(v / 128));
        varint::lemma_leb_nonempty(v / 128);
    }
}

/// Numbers with a sign take turns: none, minus one, one, minus two.
pub proof fn lemma_zigzag_codes(v: int)
    ensures
        varint::zigzag(0) == 0,
        v > 0 ==> varint::zigzag(v) == varint::zigzag(-v) + 1,
        v >= 0 ==> varint::zigzag(v + 1) == varint::zigzag(v) + 2,
        varint::unzigzag(varint::zigzag(v)) == v,
{
}

/// A number of seven-bit groups is read where it has at most five bytes, or ten for 64 bits,
/// and where it does not run past the end.
pub proof fn lemma_varint_read(s: Seq<u8>, p: int, v: u64)
    requires
        bytes::has_at(s, p, varint::leb(v as nat)),
    ensures
        varint::parse_u64(s, p) == Ok::<u64, Error>(v),
        v <= u32::MAX ==> varint::parse_u32(s, p) == Ok::<u32, Error>(v as u32),
{
    varint::lemma_u64_round_trip(s, p, v);
    if v <= u32::MAX {
        varint::lemma_u32_round_trip(s, p, v as u32);
    }
}

/// Reading a number fails only at the end of the data and where too many bytes are marked.
pub proof fn lemma_varint_refused(s: Seq<u8>, p: int)
    requires
        0 <= p,
    ensures
        p >= s.len() ==> varint::parse_u32(s, p) == Err::<u32, Error>(Error::VarintEof),
        p + 5 <= s.len() && s[p] >= 128 && s[p + 1] >= 128 && s[p + 2] >= 128 && s[p + 3] >= 128
            && s[p + 4] >= 128 ==> varint::parse_u32(s, p) == Err::<u32, Error>(
            Error::VarintOverflow,
        ),
        p < s.len() && s[p] < 128 ==> varint::parse_u32(s, p) == Ok::<u32, Error>(s[p] as u32),
{
    reveal_with_fuel(varint::run, 6);
    reveal_with_fuel(varint::groups, 2);
}

/// Bits are packed eight to a byte, the first in the lowest place.
pub proof fn lemma_bits_packed(b: Seq<bool>, i: int)
    requires
        0 <= i < b.len(),
    ensures
        bits::packed(b).len() == (b.len() + 7) / 8,
        b[i] <==> (bits::packed(b)[i / 8] as int / power2::pow2((i % 8) as nat) as int) % 2 == 1,
{
    bits::lemma_packed_bit(b, i);
    reveal(bits::bit_at);
    power2::lemma2_to64();
}

/// The number of bits for indices is the least that tells all of them apart.
pub proof fn lemma_index_width(n: nat)
    ensures
        n <= power2::pow2(bits::width_for(n)),
        n >= 2 ==> bits::width_for(n) >= 1 && power2::pow2((bits::width_for(n) - 1) as nat) < n,
        n <= 1 ==> bits::width_for(n) == 0,
{
    bits::lemma_width_for(n);
    if n >= 2 {
        bits::lemma_width_for_least(n);
    }
}

/// Whole numbers are stored in as many bytes as their type has, as two's complements.
pub proof fn lemma_number_stored()
    ensures
        forall|x: i8| #[trigger]
            values::value_bytes(ValueView::TinyInt(x)) == bytes::be(
                (if x < 0 {
                    x + 0x100
                } else {
                    x as int
                }) as nat,
                1,
            ),
        forall|x: i16| #[trigger]
            values::value_bytes(ValueView::SmallInt(x)) == bytes::be(
                (if x < 0 {
                    x + 0x1_0000
                } else {
                    x as int
                }) as nat,
                2,
            ),
        forall|x: i32| #[trigger]
            values::value_bytes(ValueView::Integer(x)) == bytes::be(
                (if x < 0 {
                    x + 0x1_0000_0000
                } else {
                    x as int
                }) as nat,
                4,
            ),
        forall|x: i64| #[trigger]
            values::value_bytes(ValueView::BigInt(x)) == bytes::be(
                (if x < 0 {
                    x + 0x1_0000_0000_0000_0000
                } else {
                    x as int
                }) as nat,
                8,
            ),
        forall|x: i32| #[trigger]
            values::value_bytes(ValueView::Date(x)) == bytes::be(
                (if x < 0 {
                    x + 0x1_0000_0000
                } else {
                    x as int
                }) as nat,
                4,
            ),
        forall|x: i32| #[trigger]
            values::value_bytes(ValueView::Time(x)) == bytes::be(
                (if x < 0 {
                    x + 0x1_0000_0000
                } else {
                    x as int
                }) as nat,
                4,
            ),
        forall|x: i64| #[trigger]
            values::value_bytes(ValueView::DecimalCompact(x)) == bytes::be(
                (if x < 0 {
                    x + 0x1_0000_0000_0000_0000
                } else {
                    x as int
                }) as nat,
                8,
            ),
        forall|x: i64| #[trigger]
            values::value_bytes(ValueView::TimestampMillis(x)) == bytes::be(
                (if x < 0 {
                    x + 0x1_0000_0000_0000_0000
                } else {
                    x as int
                }) as nat,
                8,
            ),
        forall|x: i64| #[trigger]
            values::value_bytes(ValueView::TimestampMicros(x)) == bytes::be(
                (if x < 0 {
                    x + 0x1_0000_0000_0000_0000
                } else {
                    x as int
                }) as nat,
                8,
            ),
{
    bytes::lemma_bases();
}

/// The other values: floats by their bits, text and bytes behind their length, and timestamps
/// in nanoseconds in two parts.
pub proof fn lemma_others_stored(x: u32, y: u64, z: bool, b: Seq<u8>, millis: i64, nanos: i32)
    ensures
        values::value_bytes(ValueView::Boolean(z)) == seq![
            if z {
                1u8
            } else {
                0u8
            },
        ],
        values::value_bytes(ValueView::Float(x)) == bytes::be(x as nat, 4),
        values::value_bytes(ValueView::Double(y)) == bytes::be(y as nat, 8),
        values::value_bytes(ValueView::String(b)) == varint::leb(b.len()) + b,
        values::value_bytes(ValueView::Bytes(b)) == varint::leb(b.len()) + b,
        values::value_bytes(ValueView::DecimalLarge(b)) == varint::leb(b.len()) + b,
        values::value_bytes(ValueView::Null).len() == 0,
        values::value_bytes(ValueView::TimestampNanos { millis, nanos_of_milli: nanos })
            == values::value_bytes(ValueView::BigInt(millis)) + values::value_bytes(
            ValueView::Integer(nanos),
        ),
{
}

/// A wide decimal is stored in the fewest bytes that hold it, as a two's complement.
pub proof fn lemma_wide_decimal(v: int)
    ensures
        ({
            let b = values::big_integer(v);
            &&& b.len() >= 1
            &&& bytes::be_value(b) == if v < 0 {
                v + bytes::base(b.len())
            } else {
                v
            }
            &&& -(bytes::base(b.len()) as int) <= 2 * v < bytes::base(b.len())
            &&& b.len() >= 2 ==> !(-(bytes::base((b.len() - 1) as nat) as int) <= 2 * v
                < bytes::base((b.len() - 1) as nat))
        }),
{
    values::lemma_big_integer_round_trip(v);
    let b = values::big_integer(v);
    bytes::lemma_be_value_round_trip(b);
    if b.len() >= 2 {
        values::lemma_big_integer_least(v);
    }
}

/// Where the parts of a footer stand.
pub proof fn lemma_footer_places(f: Footer)
    ensures
        ({
            let s = layout::footer_bytes(f);
            &&& s.len() == 32
            &&& s.subrange(0, 8) == bytes::be(f.index_offset as nat, 8)
            &&& s.subrange(8, 16) == bytes::be(f.schema_offset as nat, 8)
            &&& s.subrange(16, 20) == bytes::be(f.num_buckets as nat, 4)
            &&& s.subrange(20, 24) == bytes::be(f.num_row_groups as nat, 4)
            &&& s[24] == f.compression
            &&& s[25] == 1
            &&& s[26] == 0 && s[27] == 0
            &&& s[28] == 77 && s[29] == 79 && s[30] == 83 && s[31] == 65
        }),
{
    lemma_format_numbers();
    let s = layout::footer_bytes(f);
    bytes::lemma_be_len(f.index_offset as nat, 8);
    bytes::lemma_be_len(f.schema_offset as nat, 8);
    bytes::lemma_be_len(f.num_buckets as nat, 4);
    bytes::lemma_be_len(f.num_row_groups as nat, 4);
    assert(s.subrange(0, 8) =~= bytes::be(f.index_offset as nat, 8));
    assert(s.subrange(8, 16) =~= bytes::be(f.schema_offset as nat, 8));
    assert(s.subrange(16, 20) =~= bytes::be(f.num_buckets as nat, 4));
    assert(s.subrange(20, 24) =~= bytes::be(f.num_row_groups as nat, 4));
    assert(MAGIC@[0] == 77 && MAGIC@[1] == 79 && MAGIC@[2] == 83 && MAGIC@[3] == 65);
    assert(s[28] == MAGIC@[0] && s[29] == MAGIC@[1] && s[30] == MAGIC@[2] && s[31] == MAGIC@[3]);
}

/// A footer is accepted exactly where it ends as all files do, has the version that is read,
/// and has offsets that leave room for a schema block and lie before it.
pub proof fn lemma_footer_accepted(s: Seq<u8>, file_len: int)
    requires
        s.len() == 32,
    ensures
        ({
            let r = layout::parse_footer(s, file_len);
            let index = bytes::be_value(s.subrange(0, 8));
            let schema = bytes::be_value(s.subrange(8, 16));
            let marked = s[28] == 77 && s[29] == 79 && s[30] == 83 && s[31] == 65;
            let fitting = schema + 4 <= index && index + 32 <= file_len;
            &&& r is Ok <==> marked && s[25] == 1 && fitting
            &&& !marked ==> r->Err_0 == Error::BadMagic
            &&& marked && s[25] != 1 ==> r->Err_0 == Error::UnsupportedVersion
            &&& marked && s[25] == 1 && !fitting ==> r->Err_0 == Error::FooterOffsets
            &&& r is Ok ==> {
                &&& r->Ok_0.index_offset == index
                &&& r->Ok_0.schema_offset == schema
                &&& r->Ok_0.num_buckets == bytes::be_value(s.subrange(16, 20))
                &&& r->Ok_0.num_row_groups == bytes::be_value(s.subrange(20, 24))
                &&& r->Ok_0.compression == s[24]
            }
        }),
{
    lemma_format_numbers();
    bytes::lemma_bases();
    bytes::lemma_be_value_round_trip(s.subrange(0, 8));
    bytes::lemma_be_value_round_trip(s.subrange(8, 16));
    bytes::lemma_be_value_round_trip(s.subrange(16, 20));
    bytes::lemma_be_value_round_trip(s.subrange(20, 24));
    let end = s.subrange(28, 32);
    assert(end[0] == s[28] && end[1] == s[29] && end[2] == s[30] && end[3] == s[31]);
    if s[28] == 77 && s[29] == 79 && s[30] == 83 && s[31] == 65 {
        assert(end =~= MAGIC@);
    } else {
        assert(MAGIC@[0] == 77 && MAGIC@[1] == 79 && MAGIC@[2] == 83 && MAGIC@[3] == 65);
    }
}

/// A file that opens is long enough for a footer, ends as all files do and has a known version
/// and a known compression.
pub proof fn lemma_opened_file(s: Seq<u8>)
    requires
        reader::parse_file(s) is Ok,
    ensures
        s.len() >= 32,
        s[s.len() - 4] == 77 && s[s.len() - 3] == 79 && s[s.len() - 2] == 83 && s[s.len() - 1] == 65,
        s[s.len() - 7] == 1,
        s[s.len() - 8] == 0 || s[s.len() - 8] == 1,
        reader::parse_file(s)->Ok_0.compression == s[s.len() - 8],
        reader::parse_file(s)->Ok_0.schema.num_buckets == bytes::be_value(
            s.subrange(s.len() - 16, s.len() - 12),
        ),
{
    lemma_format_numbers();
    let n = s.len() as int;
    let t = s.skip(n - 32);
    lemma_footer_accepted(t, n);
    assert(t[28] == s[n - 4] && t[29] == s[n - 3] && t[30] == s[n - 2] && t[31] == s[n - 1]);
    assert(t[25] == s[n - 7] && t[24] == s[n - 8]);
    assert(t.subrange(16, 20) =~= s.subrange(n - 16, n - 12));
}

/// Files that are too short, that do not end as all files do, and that are of another version
/// are refused as such.
pub proof fn lemma_refused_file(s: Seq<u8>)
    ensures
        s.len() < 32 ==> reader::parse_file(s) == Err::<crate::row_group::FileView, Error>(
            Error::FileTooSmall,
        ),
        s.len() >= 32 && !(s[s.len() - 4] == 77 && s[s.len() - 3] == 79 && s[s.len() - 2] == 83
            && s[s.len() - 1] == 65) ==> reader::parse_file(s) == Err::<
            crate::row_group::FileView,
            Error,
        >(Error::BadMagic),
        s.len() >= 32 && s[s.len() - 4] == 77 && s[s.len() - 3] == 79 && s[s.len() - 2] == 83
            && s[s.len() - 1] == 65 && s[s.len() - 7] != 1 ==> reader::parse_file(s) == Err::<
            crate::row_group::FileView,
            Error,
        >(Error::UnsupportedVersion),
{
    lemma_format_numbers();
    let n = s.len() as int;
    if n >= 32 {
        let t = s.skip(n - 32);
        lemma_footer_accepted(t, n);
        assert(t[28] == s[n - 4] && t[29] == s[n - 3] && t[30] == s[n - 2] && t[31] == s[n - 1]);
        assert(t[25] == s[n - 7]);
    }
}

/// A block is the bytes themselves without compression, and a frame of them with it. Nothing
/// else is unpacked.
pub proof fn lemma_blocks(compression: u8, level: int, b: Seq<u8>, size: int)
    ensures
        blocks::packed(0, level, b) == b,
        blocks::packed(1, level, b) == blocks::zstd_frame(b, level),
        blocks::unpacked(0, b, size) == Ok::<Seq<u8>, Error>(b),
        compression > 1 ==> blocks::unpacked(compression, b, size) == Err::<Seq<u8>, Error>(
            Error::UnknownCompression,
        ),
        blocks::unpacked(1, b, size) is Ok ==> blocks::zstd_content(b) == Some(
            blocks::unpacked(1, b, size)->Ok_0,
        ) && blocks::unpacked(1, b, size)->Ok_0.len() <= size,
        blocks::unpacked(1, b, size) is Err ==> blocks::unpacked(1, b, size)->Err_0
            == Error::Decompress,
{
}

/// What is written of a column in a schema block.
pub proof fn lemma_column_spelled(c: ColumnMetaView)
    ensures
        schema::column_bytes(c) == varint::leb(utf8::encode_utf8(c.field.name).len())
            + utf8::encode_utf8(c.field.name) + seq![
            if c.field.data_type == DataType::LegacyTimestampNanos {
                1u8
            } else {
                0u8
            },
        ] + types::field_bytes(c.field) + varint::leb(c.bucket_id),
        types::field_bytes(c.field)[0] == types::type_tag(c.field.data_type),
        types::field_bytes(c.field)[1] == if c.field.nullable {
            1u8
        } else {
            0u8
        },
        types::field_bytes(c.field).skip(2) == match c.field.data_type {
            DataType::Decimal128(p, s) => varint::leb(p as nat) + varint::leb(
                (if s < 0 {
                    s + 0x1_0000_0000
                } else {
                    s as int
                }) as nat,
            ),
            DataType::Time32(TimeUnit::Millisecond) => varint::leb(3),
            DataType::Time32(_) => varint::leb(0),
            DataType::LegacyTimestampNanos => varint::leb(9),
            DataType::Timestamp(u, zoned) => varint::leb(
                match u {
                    TimeUnit::Second => 0,
                    TimeUnit::Millisecond => 3,
                    TimeUnit::Microsecond => 6,
                    TimeUnit::Nanosecond => 9,
                },
            ) + (if zoned {
                varint::leb(utf8::encode_utf8(c.field.timezone->0).len()) + utf8::encode_utf8(
                    c.field.timezone->0,
                )
            } else {
                Seq::empty()
            }),
            _ => Seq::empty(),
        },
{
    let f = c.field;
    assert(types::field_bytes(f).skip(2) =~= types::type_parameters(f));
    match f.data_type {
        DataType::Timestamp(u, zoned) => {
            let a = varint::leb(types::precision(f.data_type) as nat);
            if zoned {
                let b = varint::leb(utf8::encode_utf8(f.timezone->0).len());
                let d = utf8::encode_utf8(f.timezone->0);
                assert(a + b + d =~= a + (b + d));
            } else {
                assert(a + Seq::<u8>::empty() =~= a);
            }
        },
        _ => {},
    }
}

/// What is written of a schema.
pub proof fn lemma_schema_spelled(s: SchemaView, n: nat)
    ensures
        schema::schema_bytes(s) == varint::leb(s.num_buckets) + varint::leb(s.columns.len())
            + schema::columns_bytes(s.columns, s.columns.len()),
        schema::columns_bytes(s.columns, 0).len() == 0,
        schema::columns_bytes(s.columns, n + 1) == schema::columns_bytes(s.columns, n)
            + schema::column_bytes(s.columns[n as int]),
{
}

/// What is written of a row group in the index, and of a bucket in it.
pub proof fn lemma_group_spelled(g: GroupView, offset: u64, b: nat, l: LayoutView)
    ensures
        layout::group_bytes(g) == varint::leb(g.num_rows) + varint::leb(
            g.layouts.filter(|l: LayoutView| !(l is Empty)).len(),
        ) + layout::entries_bytes(g.offsets, g.layouts, g.layouts.len()) + stats::stats_bytes(
            g.stats,
        ),
        layout::entry_bytes(b, offset, l) == varint::leb(b) + bytes::be(offset as nat, 8) + match l {
            LayoutView::Empty => varint::leb(0) + varint::leb(0),
            LayoutView::Monolithic { compressed_size, uncompressed_size } => varint::leb(
                compressed_size,
            ) + varint::leb(uncompressed_size),
            LayoutView::Paged { total_size } => varint::leb(total_size) + varint::leb(0),
        },
{
    lemma_stored_count(g.layouts);
    let p = varint::leb(b) + bytes::be(offset as nat, 8);
    assert(p + varint::leb(l.sizes().0) + varint::leb(l.sizes().1) =~= p + (varint::leb(
        l.sizes().0,
    ) + varint::leb(l.sizes().1)));
}

proof fn lemma_stored_count(ls: Seq<LayoutView>)
    ensures
        layout::stored_count(ls) == ls.filter(|l: LayoutView| !(l is Empty)).len(),
    decreases ls.len(),
{
    reveal(Seq::filter);
    if ls.len() > 0 {
        lemma_stored_count(ls.drop_last());
    }
}

/// What is written of statistics: their column, their nulls, and their bounds where both are
/// there.
pub proof fn lemma_statistics_spelled(t: ColumnStatsView, list: Seq<ColumnStatsView>, n: nat)
    ensures
        stats::stat_bytes(t) == varint::leb(t.column_index) + varint::leb(t.null_count) + (
        if t.min is Some && t.max is Some {
            values::value_bytes(t.min->0) + values::value_bytes(t.max->0)
        } else {
            Seq::empty()
        }),
        stats::stats_bytes(list) == varint::leb(list.len()) + stats::stat_list_bytes(
            list,
            list.len(),
        ),
        stats::stat_list_bytes(list, 0).len() == 0,
        stats::stat_list_bytes(list, n + 1) == stats::stat_list_bytes(list, n)
            + stats::stat_bytes(list[n as int]),
{
}

/// Two sizes tell how a bucket is stored, or are refused.
pub proof fn lemma_sizes_tell(size: nat, uncompressed: nat)
    ensures
        layout::layout_of(size, uncompressed) == if size > 0 && uncompressed > 0 {
            Ok::<LayoutView, Error>(
                LayoutView::Monolithic { compressed_size: size, uncompressed_size: uncompressed },
            )
        } else if size > 0 {
            Ok(LayoutView::Paged { total_size: size })
        } else if uncompressed > 0 {
            Err(Error::BadLayout)
        } else {
            Ok(LayoutView::Empty)
        },
{
}

/// Types of text and bytes with a length, which older files have, read as text and as bytes.
pub proof fn lemma_older_types(tag: u8, s: Seq<u8>, p: int, length: u32)
    requires
        bytes::has_at(s, p, varint::leb(length as nat)),
    ensures
        tag == 8 || tag == 9 ==> types::parse_type(tag, s, p) == Ok::<
            (DataType, Option<Seq<char>>, int),
            Error,
        >((DataType::Utf8, None, p + varint::leb(length as nat).len())),
        tag == 11 || tag == 12 ==> types::parse_type(tag, s, p) == Ok::<
            (DataType, Option<Seq<char>>, int),
            Error,
        >((DataType::Binary, None, p + varint::leb(length as nat).len())),
        tag > 17 ==> types::parse_type(tag, s, p) == Err::<
            (DataType, Option<Seq<char>>, int),
            Error,
        >(Error::UnknownTypeTag),
{
    varint::lemma_u32_round_trip(s, p, length);
}

} // verus!
