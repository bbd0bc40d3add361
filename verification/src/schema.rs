//! The columns of a file and their assignment to buckets.

use crate::bytes;
use crate::error::Error;
use crate::types;
use crate::types::{DataType, Field, FieldView, TimeUnit};
use crate::varint;
use vstd::prelude::*;
use vstd::string::*;
use vstd::utf8;

verus! {

/// A column of a file.
#[derive(Debug, Clone)]
pub struct ColumnMeta {
    pub name: String,
    pub data_type: DataType,
    pub nullable: bool,
    pub bucket_id: usize,
    pub timezone: Option<String>,
}

/// The mathematical content of a [`ColumnMeta`].
pub struct ColumnMetaView {
    pub field: FieldView,
    pub bucket_id: nat,
}

impl View for ColumnMeta {
    type V = ColumnMetaView;

    open spec fn view(&self) -> ColumnMetaView {
        ColumnMetaView {
            field: FieldView {
                name: self.name@,
                data_type: self.data_type,
                nullable: self.nullable,
                timezone: match self.timezone {
                    Some(tz) => Some(tz@),
                    None => None,
                },
            },
            bucket_id: self.bucket_id as nat,
        }
    }
}

/// The contents of a list of columns.
pub open spec fn column_metas(v: Seq<ColumnMeta>) -> Seq<ColumnMetaView> {
    Seq::new(v.len(), |i: int| v[i]@)
}

/// The types of the columns.
pub open spec fn column_types(v: Seq<ColumnMetaView>) -> Seq<DataType> {
    Seq::new(v.len(), |i: int| v[i].field.data_type)
}

/// The columns of a file and the columns of each bucket.
#[derive(Debug, Clone)]
pub struct MosaicSchema {
    pub columns: Vec<ColumnMeta>,
    pub num_buckets: usize,
    pub bucket_to_global: Vec<Vec<usize>>,
}

/// The mathematical content of a [`MosaicSchema`].
#[verifier::ext_equal]
pub struct SchemaView {
    pub columns: Seq<ColumnMetaView>,
    pub num_buckets: nat,
}

impl View for MosaicSchema {
    type V = SchemaView;

    open spec fn view(&self) -> SchemaView {
        SchemaView { columns: column_metas(self.columns@), num_buckets: self.num_buckets as nat }
    }
}

/// Which of the first `n` columns are in bucket `b`, in ascending order.
pub open spec fn members(columns: Seq<ColumnMetaView>, b: nat, n: nat) -> Seq<usize>
    decreases n,
{
    if n == 0 {
        Seq::empty()
    } else if columns[n - 1].bucket_id == b {
        members(columns, b, (n - 1) as nat).push((n - 1) as usize)
    } else {
        members(columns, b, (n - 1) as nat)
    }
}

/// A column that a schema block can hold.
pub open spec fn writable_column(c: ColumnMetaView, num_buckets: nat) -> bool {
    &&& types::valid_type(c.field.data_type) is Ok
    &&& c.field.well_formed()
    &&& utf8::encode_utf8(c.field.name).len() <= u32::MAX
    &&& c.bucket_id < num_buckets
}

impl SchemaView {
    /// A schema that a schema block can hold.
    pub open spec fn writable(self) -> bool {
        &&& self.columns.len() <= u32::MAX
        &&& 1 <= self.num_buckets <= bucket_limit(self.columns.len())
        &&& forall|i: int|
            0 <= i < self.columns.len() ==> writable_column(
                #[trigger] self.columns[i],
                self.num_buckets,
            )
    }
}

/// There are no more buckets than columns, and at least one.
pub open spec fn bucket_limit(num_columns: nat) -> nat {
    if num_columns == 0 {
        1
    } else {
        num_columns
    }
}

/// The number of buckets for a requested number.
pub open spec fn bucket_count(requested: nat, num_columns: nat) -> nat {
    if requested == 0 {
        1
    } else if requested <= bucket_limit(num_columns) {
        requested
    } else {
        bucket_limit(num_columns)
    }
}

impl MosaicSchema {
    /// The bucket lists agree with the columns.
    pub open spec fn well_formed(&self) -> bool {
        &&& self.bucket_to_global@.len() == self.num_buckets
        &&& self.num_buckets >= 1
        &&& forall|b: int|
            0 <= b < self.num_buckets ==> (#[trigger] self.bucket_to_global@[b])@ == members(
                self@.columns,
                b as nat,
                self@.columns.len(),
            )
        &&& forall|i: int|
            0 <= i < self.columns@.len() ==> (#[trigger] self.columns@[i]).bucket_id
                < self.num_buckets
    }
}

/// What is wrong with a field at place `i`, if anything is.
pub open spec fn field_error(fields: Seq<FieldView>, i: int) -> Option<Error> {
    let f = fields[i];
    if types::valid_type(f.data_type) is Err {
        Some(types::valid_type(f.data_type)->Err_0)
    } else if (f.data_type is Timestamp && f.data_type->Timestamp_1) != (f.timezone is Some) {
        Some(Error::TimezoneMismatch)
    } else if utf8::encode_utf8(f.name).len() > u32::MAX || (f.timezone is Some
        && utf8::encode_utf8(f.timezone->0).len() > u32::MAX) {
        Some(Error::SizeOverflow)
    } else if exists|j: int| 0 <= j < i && (#[trigger] fields[j]).name == f.name {
        Some(Error::DuplicateColumn)
    } else {
        None
    }
}

/// The first error among the first `n` fields.
pub open spec fn fields_error(fields: Seq<FieldView>, n: nat) -> Option<Error>
    decreases n,
{
    if n == 0 {
        None
    } else {
        match fields_error(fields, (n - 1) as nat) {
            Some(e) => Some(e),
            None => field_error(fields, n - 1),
        }
    }
}

/// The contents of a list of fields.
pub open spec fn field_views(v: Seq<Field>) -> Seq<FieldView> {
    Seq::new(v.len(), |i: int| v[i]@)
}

/// The schema of the fields: the columns take turns among the buckets.
pub open spec fn schema_of(fields: Seq<FieldView>, requested: nat) -> SchemaView {
    let n = bucket_count(requested, fields.len());
    SchemaView {
        columns: Seq::new(
            fields.len(),
            |i: int| ColumnMetaView { field: fields[i], bucket_id: (i % n as int) as nat },
        ),
        num_buckets: n,
    }
}

/// The bytes of a column in a schema block: its name, whether it is a legacy
/// timestamp, its type and its bucket.
pub open spec fn column_bytes(c: ColumnMetaView) -> Seq<u8> {
    let name = utf8::encode_utf8(c.field.name);
    varint::leb(name.len()) + name + seq![
        if c.field.data_type == DataType::LegacyTimestampNanos {
            1u8
        } else {
            0u8
        },
    ] + types::field_bytes(c.field) + varint::leb(c.bucket_id)
}

/// The bytes of the first `n` columns.
pub open spec fn columns_bytes(columns: Seq<ColumnMetaView>, n: nat) -> Seq<u8>
    decreases n,
{
    if n == 0 {
        Seq::empty()
    } else {
        columns_bytes(columns, (n - 1) as nat) + column_bytes(columns[n - 1])
    }
}

/// The bytes of a schema block before compression.
pub open spec fn schema_bytes(s: SchemaView) -> Seq<u8> {
    varint::leb(s.num_buckets) + varint::leb(s.columns.len()) + columns_bytes(
        s.columns,
        s.columns.len(),
    )
}

/// The type of a column whose stored type and legacy mark are given.
pub open spec fn marked_type(dt: DataType, legacy: bool) -> DataType {
    if legacy && dt == DataType::Timestamp(TimeUnit::Nanosecond, false) {
        DataType::LegacyTimestampNanos
    } else {
        dt
    }
}

/// The column at `p`, and the position behind it.
#[verifier::opaque]
pub open spec fn parse_column(s: Seq<u8>, p: int, num_buckets: nat) -> Result<
    (ColumnMetaView, int),
    Error,
> {
    match varint::parse_u32(s, p) {
        Err(e) => Err(e),
        Ok(len) => {
            let p1 = varint::parse_end(s, p, 5);
            let p2 = p1 + len;
            if p2 + 1 > s.len() {
                Err(Error::SchemaTruncated)
            } else if !utf8::valid_utf8(s.subrange(p1, p2)) {
                Err(Error::SchemaName)
            } else {
                match types::parse_field(
                    utf8::decode_utf8(s.subrange(p1, p2)),
                    s,
                    p2 + 1,
                ) {
                    Err(e) => Err(e),
                    Ok((f, p3)) => match varint::parse_u32(s, p3) {
                        Err(e) => Err(e),
                        Ok(b) => if b >= num_buckets {
                            Err(Error::SchemaBucket)
                        } else {
                            Ok(
                                (
                                    ColumnMetaView {
                                        field: FieldView {
                                            data_type: marked_type(f.data_type, s[p2] == 1),
                                            ..f
                                        },
                                        bucket_id: b as nat,
                                    },
                                    varint::parse_end(s, p3, 5),
                                ),
                            )
                        },
                    },
                }
            }
        },
    }
}

/// The `n` columns from `p` on, behind those in `acc`, and the position behind
/// them.
pub open spec fn columns_from(
    s: Seq<u8>,
    p: int,
    num_buckets: nat,
    n: nat,
    acc: Seq<ColumnMetaView>,
) -> Result<(Seq<ColumnMetaView>, int), Error>
    decreases n,
{
    if n == 0 {
        Ok((acc, p))
    } else {
        match parse_column(s, p, num_buckets) {
            Err(e) => Err(e),
            Ok((c, q)) => columns_from(s, q, num_buckets, (n - 1) as nat, acc.push(c)),
        }
    }
}

/// The schema that the bytes describe.
#[verifier::opaque]
pub open spec fn parse_schema(s: Seq<u8>) -> Result<SchemaView, Error> {
    match varint::parse_u32(s, 0) {
        Err(e) => Err(e),
        Ok(num_buckets) => {
            let p1 = varint::parse_end(s, 0, 5);
            match varint::parse_u32(s, p1) {
                Err(e) => Err(e),
                Ok(n) => if num_buckets == 0 {
                    Err(Error::ZeroBuckets)
                } else if num_buckets > bucket_limit(n as nat) {
                    Err(Error::SchemaBucket)
                } else {
                    match columns_from(
                        s,
                        varint::parse_end(s, p1, 5),
                        num_buckets as nat,
                        n as nat,
                        Seq::empty(),
                    ) {
                        Err(e) => Err(e),
                        Ok((columns, end)) => if end != s.len() {
                            Err(Error::SchemaTrailing)
                        } else {
                            Ok(SchemaView { columns, num_buckets: num_buckets as nat })
                        },
                    }
                },
            }
        },
    }
}

proof fn lemma_column_round_trip(c: ColumnMetaView, num_buckets: nat, s: Seq<u8>, p: int)
    requires
        writable_column(c, num_buckets),
        num_buckets <= u32::MAX,
        bytes::has_at(s, p, column_bytes(c)),
    ensures
        parse_column(s, p, num_buckets) == Ok::<(ColumnMetaView, int), Error>(
            (c, p + column_bytes(c).len()),
        ),
{
    reveal(parse_column);
    let name = utf8::encode_utf8(c.field.name);
    let a = varint::leb(name.len());
    let mark = seq![
        if c.field.data_type == DataType::LegacyTimestampNanos {
            1u8
        } else {
            0u8
        },
    ];
    let f = types::field_bytes(c.field);
    let b = varint::leb(c.bucket_id);
    bytes::lemma_has_at_split(s, p, a + name + mark + f, b);
    bytes::lemma_has_at_split(s, p, a + name + mark, f);
    bytes::lemma_has_at_split(s, p, a + name, mark);
    bytes::lemma_has_at_split(s, p, a, name);
    varint::lemma_u32_round_trip(s, p, name.len() as u32);
    let p1 = p + a.len();
    let p2 = p1 + name.len();
    assert(s.subrange(p2, p2 + 1)[0] == s[p2]);
    assert(s[p2] == mark[0]);
    utf8::encode_utf8_valid_utf8(c.field.name);
    utf8::encode_utf8_decode_utf8(c.field.name);
    types::lemma_field_round_trip(c.field, s, p2 + 1);
    varint::lemma_u32_round_trip(s, p2 + 1 + f.len(), c.bucket_id as u32);
    let found = FieldView { data_type: types::stored_type(c.field.data_type), ..c.field };
    assert(FieldView { data_type: c.field.data_type, ..found } == c.field);
}

proof fn lemma_columns_round_trip(
    columns: Seq<ColumnMetaView>,
    num_buckets: nat,
    s: Seq<u8>,
    p: int,
    k: nat,
    acc: Seq<ColumnMetaView>,
)
    requires
        num_buckets <= u32::MAX,
        forall|i: int|
            0 <= i < columns.len() ==> writable_column(#[trigger] columns[i], num_buckets),
        k <= columns.len(),
        bytes::has_at(s, p, columns_bytes(columns, columns.len())),
        acc == columns.take(k as int),
    ensures
        columns_from(
            s,
            p + columns_bytes(columns, k).len(),
            num_buckets,
            (columns.len() - k) as nat,
            acc,
        ) == Ok::<(Seq<ColumnMetaView>, int), Error>(
            (columns, p + columns_bytes(columns, columns.len()).len()),
        ),
    decreases columns.len() - k,
{
    if k < columns.len() {
        lemma_columns_bytes_prefix(columns, s, p, k + 1, columns.len());
        bytes::lemma_has_at_split(
            s,
            p,
            columns_bytes(columns, k),
            column_bytes(columns[k as int]),
        );
        lemma_column_round_trip(
            columns[k as int],
            num_buckets,
            s,
            p + columns_bytes(columns, k).len(),
        );
        assert(acc.push(columns[k as int]) =~= columns.take((k + 1) as int));
        lemma_columns_round_trip(
            columns,
            num_buckets,
            s,
            p,
            k + 1,
            acc.push(columns[k as int]),
        );
    } else {
        assert(acc =~= columns);
    }
}

proof fn lemma_columns_bytes_prefix(
    columns: Seq<ColumnMetaView>,
    s: Seq<u8>,
    p: int,
    k: nat,
    n: nat,
)
    requires
        k <= n,
        bytes::has_at(s, p, columns_bytes(columns, n)),
    ensures
        bytes::has_at(s, p, columns_bytes(columns, k)),
    decreases n,
{
    if k < n {
        bytes::lemma_has_at_split(
            s,
            p,
            columns_bytes(columns, (n - 1) as nat),
            column_bytes(columns[n - 1]),
        );
        lemma_columns_bytes_prefix(columns, s, p, k, (n - 1) as nat);
    }
}

/// Reading the bytes of a schema gives the schema back.
pub proof fn lemma_schema_round_trip(schema: SchemaView)
    requires
        schema.writable(),
    ensures
        parse_schema(schema_bytes(schema)) == Ok::<SchemaView, Error>(schema),
{
    reveal(parse_schema);
    let s = schema_bytes(schema);
    let a = varint::leb(schema.num_buckets);
    let b = varint::leb(schema.columns.len());
    let c = columns_bytes(schema.columns, schema.columns.len());
    assert(s.subrange(0, s.len() as int) =~= s);
    bytes::lemma_has_at_split(s, 0, a + b, c);
    bytes::lemma_has_at_split(s, 0, a, b);
    varint::lemma_u32_round_trip(s, 0, schema.num_buckets as u32);
    varint::lemma_u32_round_trip(s, a.len() as int, schema.columns.len() as u32);
    assert(schema.columns.take(0) =~= Seq::<ColumnMetaView>::empty());
    lemma_columns_round_trip(
        schema.columns,
        schema.num_buckets,
        s,
        (a.len() + b.len()) as int,
        0,
        Seq::empty(),
    );
}

/// Every schema of fields without an error can be written.
pub proof fn lemma_schema_of_writable(fields: Seq<FieldView>, requested: nat)
    requires
        fields.len() <= u32::MAX,
        fields_error(fields, fields.len()) is None,
    ensures
        schema_of(fields, requested).writable(),
{
    let schema = schema_of(fields, requested);
    assert forall|i: int| 0 <= i < schema.columns.len() implies writable_column(
        #[trigger] schema.columns[i],
        schema.num_buckets,
    ) by {
        lemma_fields_error(fields, fields.len(), i);
    }
}

proof fn lemma_fields_error(fields: Seq<FieldView>, n: nat, i: int)
    requires
        fields_error(fields, n) is None,
        0 <= i < n,
    ensures
        field_error(fields, i) is None,
    decreases n,
{
    if i < n - 1 {
        lemma_fields_error(fields, (n - 1) as nat, i);
    }
}

/// Members are columns of the bucket, and every column of it is a member.
pub proof fn lemma_members(columns: Seq<ColumnMetaView>, b: nat, n: nat)
    requires
        n <= columns.len() <= usize::MAX,
    ensures
        forall|k: int|
            0 <= k < members(columns, b, n).len() ==> 0 <= (#[trigger] members(
                columns,
                b,
                n,
            )[k]) < n && columns[members(columns, b, n)[k] as int].bucket_id == b,
        forall|i: int|
            0 <= i < n && #[trigger] columns[i].bucket_id == b ==> members(columns, b, n).contains(
                i as usize,
            ),
        members(columns, b, n).len() <= n,
        forall|j: int, k: int|
            0 <= j < k < members(columns, b, n).len() ==> #[trigger] members(columns, b, n)[j]
                < #[trigger] members(columns, b, n)[k],
    decreases n,
{
    if n > 0 {
        let m = (n - 1) as nat;
        lemma_members(columns, b, m);
        let before = members(columns, b, m);
        let all = members(columns, b, n);
        if columns[n - 1].bucket_id == b {
            assert(all == before.push((n - 1) as usize));
            assert(all[before.len() as int] == (n - 1) as usize);
            assert forall|k: int| 0 <= k < all.len() implies 0 <= (#[trigger] all[k]) < n
                && columns[all[k] as int].bucket_id == b by {
                if k < before.len() {
                    assert(all[k] == before[k]);
                }
            }
            assert forall|i: int|
                0 <= i < n && #[trigger] columns[i].bucket_id == b implies all.contains(
                i as usize,
            ) by {
                if i < n - 1 {
                    assert(before.contains(i as usize));
                    let k = choose|k: int| 0 <= k < before.len() && before[k] == i as usize;
                    assert(all[k] == i as usize);
                }
            }
            assert forall|j: int, k: int| 0 <= j < k < all.len() implies #[trigger] all[j]
                < #[trigger] all[k] by {
                assert(all[j] == before[j]);
                if k < before.len() {
                    assert(all[k] == before[k]);
                }
            }
        }
    }
}

fn copy_timezone(tz: &Option<String>) -> (r: Option<String>)
    ensures
        r == *tz,
{
    match tz {
        Some(s) => Some(s.clone()),
        None => None,
    }
}

impl ColumnMeta {
    /// A copy of the column.
    pub fn duplicate(&self) -> (r: ColumnMeta)
        ensures
            r == *self,
    {
        ColumnMeta {
            name: self.name.clone(),
            data_type: self.data_type,
            nullable: self.nullable,
            bucket_id: self.bucket_id,
            timezone: copy_timezone(&self.timezone),
        }
    }

    /// The column as a field.
    pub fn to_field(&self) -> (f: Field)
        ensures
            f@ == self@.field,
    {
        Field {
            name: self.name.clone(),
            data_type: self.data_type,
            nullable: self.nullable,
            timezone: copy_timezone(&self.timezone),
        }
    }
}

/// Collects the columns of each bucket.
fn collect_buckets(columns: &Vec<ColumnMeta>, num_buckets: usize) -> (r: Vec<Vec<usize>>)
    requires
        forall|i: int|
            0 <= i < columns@.len() ==> (#[trigger] columns@[i]).bucket_id < num_buckets,
    ensures
        r@.len() == num_buckets,
        forall|b: int|
            0 <= b < num_buckets ==> (#[trigger] r@[b])@ == members(
                column_metas(columns@),
                b as nat,
                columns@.len(),
            ),
{
    let ghost cs = column_metas(columns@);
    let mut r: Vec<Vec<usize>> = Vec::new();
    let mut b: usize = 0;
    while b < num_buckets
        invariant
            b <= num_buckets,
            r@.len() == b,
            forall|k: int| 0 <= k < b ==> (#[trigger] r@[k])@ == Seq::<usize>::empty(),
        decreases num_buckets - b,
    {
        r.push(Vec::new());
        b = b + 1;
    }
    let mut i: usize = 0;
    while i < columns.len()
        invariant
            i <= columns@.len(),
            cs == column_metas(columns@),
            forall|j: int|
                0 <= j < columns@.len() ==> (#[trigger] columns@[j]).bucket_id < num_buckets,
            r@.len() == num_buckets,
            forall|k: int|
                0 <= k < num_buckets ==> (#[trigger] r@[k])@ == members(cs, k as nat, i as nat),
        decreases columns@.len() - i,
    {
        let bucket: usize = columns[i].bucket_id;
        let ghost before = r@;
        assert(cs[i as int].bucket_id == bucket);
        r[bucket].push(i);
        proof {
            assert forall|k: int| 0 <= k < num_buckets implies (#[trigger] r@[k])@ == members(
                cs,
                k as nat,
                (i + 1) as nat,
            ) by {
                if k == bucket {
                    assert(r@[k]@ == before[k]@.push(i));
                } else {
                    assert(r@[k] == before[k]);
                }
            }
        }
        i = i + 1;
    }
    r
}

impl MosaicSchema {
    /// A schema of the given columns.
    fn assemble(columns: Vec<ColumnMeta>, num_buckets: usize) -> (r: MosaicSchema)
        requires
            num_buckets >= 1,
            forall|i: int|
                0 <= i < columns@.len() ==> (#[trigger] columns@[i]).bucket_id < num_buckets,
        ensures
            r.well_formed(),
            r.columns == columns,
            r.num_buckets == num_buckets,
    {
        let bucket_to_global: Vec<Vec<usize>> = collect_buckets(&columns, num_buckets);
        MosaicSchema { columns, num_buckets, bucket_to_global }
    }

    /// The schema of the fields in the given order, with at most `num_buckets`
    /// buckets.
    pub fn from_fields(fields: &Vec<Field>, num_buckets: usize) -> (r: Result<MosaicSchema, Error>)
        ensures
            fields@.len() > u32::MAX ==> r is Err && r->Err_0 == Error::SizeOverflow,
            fields@.len() <= u32::MAX ==> match fields_error(
                field_views(fields@),
                fields@.len(),
            ) {
                Some(e) => r is Err && r->Err_0 == e,
                None => r is Ok && r->Ok_0.well_formed() && r->Ok_0@ == schema_of(
                    field_views(fields@),
                    num_buckets as nat,
                ),
            },
            r is Ok ==> r->Ok_0.columns@.len() == fields@.len() && forall|i: int|
                0 <= i < fields@.len() ==> (#[trigger] r->Ok_0.columns@[i])@.field == fields@[i]@,
    {
        if fields.len() > u32::MAX as usize {
            return Err(Error::SizeOverflow);
        }
        let ghost fs = field_views(fields@);
        let mut i: usize = 0;
        while i < fields.len()
            invariant
                i <= fields@.len() <= u32::MAX,
                fs == field_views(fields@),
                fields_error(fs, i as nat) is None,
            decreases fields@.len() - i,
        {
            match check_field(fields, i) {
                Ok(()) => {},
                Err(e) => {
                    proof {
                        lemma_fields_error_prefix(fs, (i + 1) as nat, fs.len());
                    }
                    return Err(e);
                },
            }
            i = i + 1;
        }
        let limit: usize = if fields.len() == 0 {
            1
        } else {
            fields.len()
        };
        let n: usize = if num_buckets == 0 {
            1
        } else if num_buckets <= limit {
            num_buckets
        } else {
            limit
        };
        let mut columns: Vec<ColumnMeta> = Vec::new();
        let mut i: usize = 0;
        while i < fields.len()
            invariant
                i <= fields@.len(),
                fs == field_views(fields@),
                n == bucket_count(num_buckets as nat, fs.len()),
                n >= 1,
                columns@.len() == i,
                forall|j: int|
                    0 <= j < i ==> (#[trigger] columns@[j])@ == (ColumnMetaView {
                        field: fs[j],
                        bucket_id: (j % n as int) as nat,
                    }),
            decreases fields@.len() - i,
        {
            let f: &Field = &fields[i];
            assert(fs[i as int] == f@);
            columns.push(
                ColumnMeta {
                    name: f.name.clone(),
                    data_type: f.data_type,
                    nullable: f.nullable,
                    bucket_id: i % n,
                    timezone: copy_timezone(&f.timezone),
                },
            );
            i = i + 1;
        }
        proof {
            assert forall|j: int| 0 <= j < columns@.len() implies (
            #[trigger] columns@[j]).bucket_id < n by {
                assert(columns@[j]@.bucket_id == j % n as int);
            }
        }
        let r: MosaicSchema = Self::assemble(columns, n);
        assert(r@.columns =~= schema_of(fs, num_buckets as nat).columns);
        Ok(r)
    }

    /// The bytes of the schema.
    pub fn serialize(&self) -> (out: Vec<u8>)
        requires
            self@.writable(),
        ensures
            out@ == schema_bytes(self@),
    {
        let ghost cs = self@.columns;
        let mut out: Vec<u8> = Vec::new();
        varint::encode(&mut out, self.num_buckets as u32);
        varint::encode(&mut out, self.columns.len() as u32);
        let ghost base = out@;
        assert(base =~= varint::leb(self.num_buckets as nat) + varint::leb(cs.len()));
        let mut i: usize = 0;
        assert(out@ =~= base + columns_bytes(cs, 0));
        while i < self.columns.len()
            invariant
                i <= self.columns@.len(),
                cs == self@.columns,
                self@.writable(),
                out@ == base + columns_bytes(cs, i as nat),
            decreases self.columns@.len() - i,
        {
            let c: &ColumnMeta = &self.columns[i];
            assert(cs[i as int] == c@);
            assert(writable_column(cs[i as int], self@.num_buckets));
            let ghost before = out@;
            let name: &[u8] = c.name.as_str().as_bytes();
            varint::encode(&mut out, name.len() as u32);
            bytes::append_bytes(&mut out, name);
            let legacy: bool = matches!(c.data_type, DataType::LegacyTimestampNanos);
            out.push(
                if legacy {
                    1
                } else {
                    0
                },
            );
            types::serialize_field(&c.to_field(), &mut out);
            varint::encode(&mut out, c.bucket_id as u32);
            proof {
                assert(out@ =~= before + column_bytes(c@));
                assert(out@ =~= base + columns_bytes(cs, (i + 1) as nat));
            }
            i = i + 1;
        }
        out
    }

    /// Reads a schema from its bytes.
    #[verifier::loop_isolation(false)]
    pub fn deserialize(buf: &[u8]) -> (r: Result<MosaicSchema, Error>)
        ensures
            match parse_schema(buf@) {
                Ok(s) => r is Ok && r->Ok_0.well_formed() && r->Ok_0@ == s,
                Err(e) => r is Err && r->Err_0 == e,
            },
    {
        let mut pos: usize = 0;
        proof {
            reveal(parse_schema);
            varint::lemma_parse_end(buf@, 0, 5);
            varint::lemma_parse_end(buf@, varint::parse_end(buf@, 0, 5), 5);
        }
        let num_buckets: u32 = match varint::decode(buf, &mut pos) {
            Err(e) => {
                return Err(e);
            },
            Ok(v) => v,
        };
        let n: u32 = match varint::decode(buf, &mut pos) {
            Err(e) => {
                return Err(e);
            },
            Ok(v) => v,
        };
        if num_buckets == 0 {
            return Err(Error::ZeroBuckets);
        }
        if num_buckets > n && !(n == 0 && num_buckets == 1) {
            return Err(Error::SchemaBucket);
        }
        let ghost start = pos as int;
        let mut columns: Vec<ColumnMeta> = Vec::new();
        let mut left: u32 = n;
        assert(column_metas(columns@) =~= Seq::<ColumnMetaView>::empty());
        while left > 0
            invariant
                left <= n,
                pos <= buf@.len(),
                forall|i: int|
                    0 <= i < columns@.len() ==> (#[trigger] columns@[i]).bucket_id < num_buckets,
                columns_from(buf@, start, num_buckets as nat, n as nat, Seq::empty())
                    == columns_from(
                    buf@,
                    pos as int,
                    num_buckets as nat,
                    left as nat,
                    column_metas(columns@),
                ),
            decreases left,
        {
            let ghost before = column_metas(columns@);
            match read_column_meta(buf, &mut pos, num_buckets) {
                Err(e) => {
                    return Err(e);
                },
                Ok(c) => {
                    columns.push(c);
                    assert(column_metas(columns@) =~= before.push(c@));
                },
            }
            left = left - 1;
        }
        if pos != buf.len() {
            return Err(Error::SchemaTrailing);
        }
        Ok(Self::assemble(columns, num_buckets as usize))
    }

    /// The types of some of the columns.
    pub fn types_of(&self, indices: &Vec<usize>) -> (types: Vec<DataType>)
        requires
            forall|k: int| 0 <= k < indices@.len() ==> #[trigger] indices@[k] < self.columns@.len(),
        ensures
            types@ == Seq::new(
                indices@.len(),
                |k: int| self@.columns[indices@[k] as int].field.data_type,
            ),
    {
        let mut types: Vec<DataType> = Vec::new();
        let mut k: usize = 0;
        while k < indices.len()
            invariant
                k <= indices@.len(),
                forall|j: int|
                    0 <= j < indices@.len() ==> #[trigger] indices@[j] < self.columns@.len(),
                types@.len() == k,
                forall|j: int|
                    0 <= j < k ==> #[trigger] types@[j] == self@.columns[indices@[j] as int].field.data_type,
            decreases indices@.len() - k,
        {
            types.push(self.columns[indices[k]].data_type);
            k = k + 1;
        }
        assert(types@ =~= Seq::new(
            indices@.len(),
            |k: int| self@.columns[indices@[k] as int].field.data_type,
        ));
        types
    }

    /// A copy of the schema.
    pub fn duplicate(&self) -> (r: MosaicSchema)
        requires
            self.well_formed(),
        ensures
            r.well_formed(),
            r@ == self@,
    {
        let mut columns: Vec<ColumnMeta> = Vec::new();
        let mut i: usize = 0;
        while i < self.columns.len()
            invariant
                i <= self.columns@.len(),
                columns@ == self.columns@.take(i as int),
            decreases self.columns@.len() - i,
        {
            columns.push(self.columns[i].duplicate());
            i = i + 1;
            assert(columns@ =~= self.columns@.take(i as int));
        }
        assert(columns@ =~= self.columns@);
        Self::assemble(columns, self.num_buckets)
    }
}

proof fn lemma_fields_error_prefix(fields: Seq<FieldView>, k: nat, n: nat)
    requires
        k <= n,
        fields_error(fields, k) is Some,
    ensures
        fields_error(fields, n) == fields_error(fields, k),
    decreases n,
{
    if k < n {
        lemma_fields_error_prefix(fields, k, (n - 1) as nat);
    }
}

/// Checks the field at place `i` against the format and the fields before it.
#[verifier::loop_isolation(false)]
fn check_field(fields: &Vec<Field>, i: usize) -> (r: Result<(), Error>)
    requires
        i < fields@.len(),
    ensures
        match field_error(field_views(fields@), i as int) {
            None => r is Ok,
            Some(e) => r is Err && r->Err_0 == e,
        },
{
    let ghost fs = field_views(fields@);
    let f: &Field = &fields[i];
    assert(fs[i as int] == f@);
    match types::validate_data_type(&f.data_type) {
        Ok(()) => {},
        Err(e) => {
            return Err(e);
        },
    }
    let zoned: bool = matches!(f.data_type, DataType::Timestamp(_, true));
    if zoned != f.timezone.is_some() {
        return Err(Error::TimezoneMismatch);
    }
    if f.name.as_str().as_bytes().len() > u32::MAX as usize {
        return Err(Error::SizeOverflow);
    }
    if let Some(tz) = &f.timezone {
        if tz.as_str().as_bytes().len() > u32::MAX as usize {
            return Err(Error::SizeOverflow);
        }
    }
    let mut j: usize = 0;
    while j < i
        invariant
            j <= i < fields@.len(),
            fs == field_views(fields@),
            *f == fields@[i as int],
            forall|k: int| 0 <= k < j ==> (#[trigger] fs[k]).name != f.name@,
        decreases i - j,
    {
        assert(fs[j as int] == fields@[j as int]@);
        if types::same_str(&fields[j].name, f.name.as_str()) {
            assert(fs[j as int].name == fs[i as int].name);
            return Err(Error::DuplicateColumn);
        }
        j = j + 1;
    }
    Ok(())
}

/// Reads a column of a schema block at `*pos` and moves `*pos` behind it.
fn read_column_meta(buf: &[u8], pos: &mut usize, num_buckets: u32) -> (r: Result<
    ColumnMeta,
    Error,
>)
    requires
        *old(pos) <= buf@.len(),
    ensures
        match parse_column(buf@, *old(pos) as int, num_buckets as nat) {
            Ok((c, end)) => r is Ok && r->Ok_0@ == c && *final(pos) == end && end <= buf@.len()
                && r->Ok_0.bucket_id < num_buckets,
            Err(e) => r is Err && r->Err_0 == e,
        },
{
    proof {
        reveal(parse_column);
        varint::lemma_parse_end(buf@, *pos as int, 5);
    }
    let len: usize = match varint::decode(buf, pos) {
        Err(e) => {
            return Err(e);
        },
        Ok(v) => v as usize,
    };
    if buf.len() == 0 || len > buf.len() - 1 || *pos > buf.len() - 1 - len {
        return Err(Error::SchemaTruncated);
    }
    let end: usize = *pos + len;
    let name: String = match types::string_from_utf8(bytes::copy_range(buf, *pos, end)) {
        None => {
            return Err(Error::SchemaName);
        },
        Some(s) => s,
    };
    let legacy: bool = buf[end] == 1;
    *pos = end + 1;
    let ghost at = *pos as int;
    let f: Field = match types::deserialize_field(name.as_str(), buf, pos) {
        Err(e) => {
            return Err(e);
        },
        Ok(f) => f,
    };
    proof {
        types::lemma_parse_field_end(name@, buf@, at);
        varint::lemma_parse_end(buf@, *pos as int, 5);
    }
    let bucket: u32 = match varint::decode(buf, pos) {
        Err(e) => {
            return Err(e);
        },
        Ok(v) => v,
    };
    if bucket >= num_buckets {
        return Err(Error::SchemaBucket);
    }
    let data_type: DataType = if legacy && matches!(f.data_type, DataType::Timestamp(TimeUnit::Nanosecond, false)) {
        DataType::LegacyTimestampNanos
    } else {
        f.data_type
    };
    Ok(
        ColumnMeta {
            name: f.name,
            data_type,
            nullable: f.nullable,
            bucket_id: bucket as usize,
            timezone: f.timezone,
        },
    )
}

/// The first of the first `n` fields that has the name.
pub open spec fn place_of(fields: Seq<FieldView>, name: Seq<char>, n: nat) -> Option<usize>
    decreases n,
{
    if n == 0 {
        None
    } else {
        match place_of(fields, name, (n - 1) as nat) {
            Some(i) => Some(i),
            None => if fields[n - 1].name == name {
                Some((n - 1) as usize)
            } else {
                None
            },
        }
    }
}

/// The places of the fields with the first `n` names. Names that no field has are passed
/// over.
pub open spec fn places_of(fields: Seq<FieldView>, names: Seq<String>, n: nat) -> Seq<usize>
    decreases n,
{
    if n == 0 {
        Seq::empty()
    } else {
        let before = places_of(fields, names, (n - 1) as nat);
        match place_of(fields, names[n - 1]@, fields.len()) {
            Some(i) => before.push(i),
            None => before,
        }
    }
}

proof fn lemma_place_stays(fields: Seq<FieldView>, name: Seq<char>, k: nat, n: nat)
    requires
        k <= n,
        place_of(fields, name, k) is Some,
    ensures
        place_of(fields, name, n) == place_of(fields, name, k),
    decreases n,
{
    if k < n {
        lemma_place_stays(fields, name, k, (n - 1) as nat);
    }
}

/// The first field that has the name.
fn find_place(fields: &Vec<Field>, name: &String) -> (r: Option<usize>)
    ensures
        r == place_of(field_views(fields@), name@, fields@.len()),
{
    let ghost views = field_views(fields@);
    let mut i: usize = 0;
    while i < fields.len()
        invariant
            i <= fields@.len(),
            views == field_views(fields@),
            place_of(views, name@, i as nat) is None,
        decreases fields@.len() - i,
    {
        assert(views[i as int] == fields@[i as int]@);
        if types::same_str(&fields[i].name, name.as_str()) {
            proof {
                lemma_place_stays(views, name@, (i + 1) as nat, views.len());
            }
            return Some(i);
        }
        i = i + 1;
    }
    None
}

/// The places of the fields with the given names. Names that no field has are passed
/// over.
pub fn column_places(fields: &Vec<Field>, names: &Vec<String>) -> (r: Vec<usize>)
    ensures
        r@ == places_of(field_views(fields@), names@, names@.len()),
{
    let mut places: Vec<usize> = Vec::new();
    let mut k: usize = 0;
    while k < names.len()
        invariant
            k <= names@.len(),
            places@ == places_of(field_views(fields@), names@, k as nat),
        decreases names@.len() - k,
    {
        if let Some(i) = find_place(fields, &names[k]) {
            places.push(i);
        }
        k = k + 1;
    }
    places
}

} // verus!
