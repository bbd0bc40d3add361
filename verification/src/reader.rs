//! Reads files.

use crate::blocks;
use crate::bytes;
use crate::error::Error;
use crate::format::FOOTER_SIZE;
use crate::input;
use crate::input::InputFile;
use crate::layout;
use crate::layout::{Footer, RowGroupMeta};
use crate::row_group;
use crate::row_group::{BucketView, FileView, RowGroupReader};
use crate::schema;
use crate::schema::{ColumnMetaView, MosaicSchema};
use crate::stats;
use crate::stats::ColumnStats;
use crate::types;
use vstd::prelude::*;
use vstd::string::*;

verus! {

/// How much of the end of a file is read at once when it is opened.
pub const TAIL_PREFETCH_SIZE: u64 = 65_536;

/// What a file says of itself, given its footer and the bytes between the start of the
/// schema block and the footer.
pub open spec fn parse_meta(f: Footer, meta: Seq<u8>) -> Result<FileView, Error> {
    let split = f.index_offset - f.schema_offset;
    match blocks::unpacked(
        f.compression,
        meta.subrange(4, split),
        bytes::be_value(meta.subrange(0, 4)) as int,
    ) {
        Err(e) => Err(e),
        Ok(raw) => match schema::parse_schema(raw) {
            Err(e) => Err(e),
            Ok(s) => if s.num_buckets != f.num_buckets {
                Err(Error::NumBucketsMismatch)
            } else {
                match layout::parse_index(
                    meta.skip(split),
                    f.schema_offset as int,
                    s.num_buckets,
                    schema::column_types(s.columns),
                    f.num_row_groups as nat,
                ) {
                    Err(e) => Err(e),
                    Ok(groups) => Ok(
                        FileView { schema: s, groups, compression: f.compression },
                    ),
                }
            },
        },
    }
}

/// What the bytes of a file say.
pub open spec fn parse_file(s: Seq<u8>) -> Result<FileView, Error> {
    let n = s.len() as int;
    if n < FOOTER_SIZE {
        Err(Error::FileTooSmall)
    } else {
        match layout::parse_footer(s.skip(n - FOOTER_SIZE), n) {
            Err(e) => Err(e),
            Ok(f) => parse_meta(f, s.subrange(f.schema_offset as int, n - FOOTER_SIZE)),
        }
    }
}

/// Whether decompressing the schema block is sure to succeed.
pub open spec fn is_sound_meta(f: Footer, meta: Seq<u8>) -> bool {
    blocks::is_sound_block(
        f.compression,
        meta.subrange(4, f.index_offset - f.schema_offset),
        bytes::be_value(meta.subrange(0, 4)) as int,
    )
}

/// Whether decompressing the schema block of a file is sure to succeed.
pub open spec fn is_sound_file(s: Seq<u8>) -> bool {
    let n = s.len() as int;
    match layout::parse_footer(s.skip(n - FOOTER_SIZE), n) {
        Err(_) => true,
        Ok(f) => is_sound_meta(f, s.subrange(f.schema_offset as int, n - FOOTER_SIZE)),
    }
}

/// Reads what a file says of itself. A schema block that was not compressed here may be
/// refused.
pub fn open_metadata(f: &Footer, meta: &[u8]) -> (r: Result<
    (MosaicSchema, Vec<RowGroupMeta>),
    Error,
>)
    requires
        f.schema_offset + 4 <= f.index_offset,
        f.index_offset - f.schema_offset <= meta@.len(),
    ensures
        match r {
            Ok((schema, metas)) => {
                &&& schema.well_formed()
                &&& parse_meta(*f, meta@) == Ok::<FileView, Error>(
                    (FileView {
                        schema: schema@,
                        groups: layout::group_views(metas@),
                        compression: f.compression,
                    }),
                )
                &&& forall|i: int|
                    0 <= i < metas@.len() ==> row_group::group_ok(
                        (#[trigger] metas@[i])@,
                        schema@,
                        f.schema_offset as int,
                    )
            },
            Err(e) => {
                ||| parse_meta(*f, meta@) == Err::<FileView, Error>(e)
                ||| e == Error::Decompress && !is_sound_meta(*f, meta@)
            },
        },
{
    assert(meta.len() == meta@.len());
    let split: usize = (f.index_offset - f.schema_offset) as usize;
    let size: u64 = bytes::read_be(meta, 0, 4);
    let block: Vec<u8> = bytes::copy_range(meta, 4, split);
    proof {
        bytes::lemma_bases();
        bytes::lemma_be_value_round_trip(meta@.subrange(0, 4));
    }
    let raw: Vec<u8> = match blocks::unpack(f.compression, &block, size as usize) {
        Err(e) => {
            return Err(e);
        },
        Ok(v) => v,
    };
    let schema: MosaicSchema = match MosaicSchema::deserialize(&raw) {
        Err(e) => {
            return Err(e);
        },
        Ok(v) => v,
    };
    if schema.num_buckets != f.num_buckets as usize {
        return Err(Error::NumBucketsMismatch);
    }
    let index: Vec<u8> = bytes::copy_range(meta, split, meta.len());
    assert(index@ =~= meta@.skip(split as int));
    match layout::read_index(
        &index,
        f.schema_offset,
        schema.num_buckets,
        &schema.columns,
        f.num_row_groups,
    ) {
        Err(e) => Err(e),
        Ok(metas) => {
            proof {
                let groups = layout::group_views(metas@);
                assert forall|i: int| 0 <= i < metas@.len() implies row_group::group_ok(
                    (#[trigger] metas@[i])@,
                    schema@,
                    f.schema_offset as int,
                ) by {
                    assert(groups[i] == metas@[i]@);
                }
            }
            Ok((schema, metas))
        },
    }
}

/// How many bytes of the end of a file are read first.
pub open spec fn tail_size(file_len: int) -> int {
    if file_len < TAIL_PREFETCH_SIZE {
        file_len
    } else {
        TAIL_PREFETCH_SIZE as int
    }
}

/// What is read first of a file: the start and the length of its end.
pub fn tail_range(file_len: u64) -> (r: (u64, usize))
    ensures
        r.0 == file_len - tail_size(file_len as int),
        r.1 == tail_size(file_len as int),
{
    let size: u64 = if file_len < TAIL_PREFETCH_SIZE {
        file_len
    } else {
        TAIL_PREFETCH_SIZE
    };
    (file_len - size, size as usize)
}

/// What is read of a file next: the start and the length of what stands between the
/// start of the schema block and the footer, unless it was read with the end.
pub fn metadata_range(f: &Footer, file_len: u64) -> (r: Option<(u64, u64)>)
    requires
        f.schema_offset + FOOTER_SIZE <= file_len,
    ensures
        r == (if f.schema_offset >= file_len - tail_size(file_len as int) {
            None
        } else {
            Some((f.schema_offset, (file_len - FOOTER_SIZE - f.schema_offset) as u64))
        }),
{
    let (start, _): (u64, usize) = tail_range(file_len);
    if f.schema_offset >= start {
        None
    } else {
        Some((f.schema_offset, file_len - FOOTER_SIZE as u64 - f.schema_offset))
    }
}

/// Which of `n` columns are in a list.
pub open spec fn flags(columns: Seq<usize>, n: nat) -> Seq<bool> {
    Seq::new(n, |c: int| columns.contains(c as usize))
}

/// Those of the first `n` columns that are flagged.
pub open spec fn flagged(projected: Seq<bool>, n: nat) -> Seq<usize>
    decreases n,
{
    if n == 0 {
        Seq::empty()
    } else if projected[n - 1] {
        flagged(projected, (n - 1) as nat).push((n - 1) as usize)
    } else {
        flagged(projected, (n - 1) as nat)
    }
}

/// All columns up to `n`.
pub open spec fn all_columns(n: nat) -> Seq<usize> {
    Seq::new(n, |c: int| c as usize)
}

/// The first of the first `n` columns that has the name.
pub open spec fn named(columns: Seq<ColumnMetaView>, name: Seq<char>, n: nat) -> Option<int>
    decreases n,
{
    if n == 0 {
        None
    } else {
        match named(columns, name, (n - 1) as nat) {
            Some(c) => Some(c),
            None => if columns[n - 1].field.name == name {
                Some(n - 1)
            } else {
                None
            },
        }
    }
}

/// The columns with the first `n` names, each once.
pub open spec fn selected(columns: Seq<ColumnMetaView>, names: Seq<&str>, n: nat) -> Result<
    Seq<usize>,
    Error,
>
    decreases n,
{
    if n == 0 {
        Ok(Seq::empty())
    } else {
        match selected(columns, names, (n - 1) as nat) {
            Err(e) => Err(e),
            Ok(list) => match named(columns, names[n - 1]@, columns.len()) {
                None => Err(Error::UnknownColumn),
                Some(c) => if list.contains(c as usize) {
                    Ok(list)
                } else {
                    Ok(list.push(c as usize))
                },
            },
        }
    }
}

/// Whether a row group was opened with the given columns.
pub open spec fn is_opened(
    f: FileView,
    file: Seq<u8>,
    rg_index: int,
    projected: Seq<bool>,
    order: Seq<usize>,
    rg: RowGroupReader,
) -> bool {
    &&& rg.well_formed()
    &&& rg.schema() == f.schema
    &&& rg.projected() == projected
    &&& rg.order() == order
    &&& rg.row_count() == f.groups[rg_index].num_rows
    &&& row_group::open_buckets(f, file, f.groups[rg_index], projected) == Ok::<
        Seq<BucketView>,
        Error,
    >(rg.opened())
}

/// Whether `r` is what opening a row group with the given columns may give. It is sure
/// to be what the bytes say where the file is dependable and its frames were made
/// here, and where nothing has to be read.
pub open spec fn is_group_result(
    f: FileView,
    file: Seq<u8>,
    dependable: bool,
    failures: Set<Error>,
    rg_index: int,
    projected: Seq<bool>,
    order: Seq<usize>,
    r: Result<RowGroupReader, Error>,
) -> bool {
    let g = f.groups[rg_index];
    &&& row_group::first_ranges(f.schema, g, projected, f.schema.num_buckets).len() == 0
        ==> r is Ok
    &&& match r {
        Ok(rg) => is_opened(f, file, rg_index, projected, order, rg),
        Err(e) => {
            ||| row_group::open_buckets(f, file, g, projected) == Err::<Seq<BucketView>, Error>(e)
            ||| row_group::may_fail(e, dependable, failures, f, file, g, projected)
        },
    }
}

/// Access to the row groups of a file.
pub trait ReaderAccess {
    /// What the file says of itself.
    spec fn file(&self) -> FileView;

    /// The bytes of the file.
    spec fn contents(&self) -> Seq<u8>;

    /// Whether reading bytes of the file never fails.
    spec fn dependable(&self) -> bool;

    /// The errors that reading the file may fail with.
    spec fn failures(&self) -> Set<Error>;

    /// The columns that row groups are read with, where they were chosen.
    spec fn projection(&self) -> Option<Seq<usize>>;

    /// The parts of the reader fit together.
    spec fn well_formed(&self) -> bool;

    /// The columns of the file.
    fn schema(&self) -> (s: &MosaicSchema)
        requires
            self.well_formed(),
        ensures
            s@ == self.file().schema,
            s.well_formed(),
    ;

    /// How many row groups the file has.
    fn num_row_groups(&self) -> (n: usize)
        ensures
            n == self.file().groups.len(),
    ;

    /// How many rows a row group has.
    fn row_group_num_rows(&self, rg_index: usize) -> (r: Result<usize, Error>)
        ensures
            rg_index < self.file().groups.len() ==> r is Ok && r->Ok_0
                == self.file().groups[rg_index as int].num_rows,
            rg_index >= self.file().groups.len() ==> r is Err && r->Err_0 == Error::RowGroupRange,
    ;

    /// The statistics of a row group.
    fn row_group_stats(&self, rg_index: usize) -> (r: Result<&Vec<ColumnStats>, Error>)
        ensures
            rg_index < self.file().groups.len() ==> r is Ok && stats::stats_views(r->Ok_0@)
                == self.file().groups[rg_index as int].stats,
            rg_index >= self.file().groups.len() ==> r is Err && r->Err_0 == Error::RowGroupRange,
    ;

    /// Chooses the columns, by their names, that row groups are read with.
    fn project(&mut self, names: &[&str]) -> (r: Result<(), Error>)
        requires
            old(self).well_formed(),
        ensures
            final(self).well_formed(),
            final(self).file() == old(self).file(),
            final(self).contents() == old(self).contents(),
            final(self).dependable() == old(self).dependable(),
            final(self).failures() == old(self).failures(),
            match selected(old(self).file().schema.columns, names@, names@.len()) {
                Ok(list) => r is Ok && final(self).projection() == Some(list),
                Err(e) => r is Err && r->Err_0 == e && final(self).projection() == old(self).projection(),
            },
    ;

    /// Opens a row group with the chosen columns, or with all of them.
    fn row_group_reader(&self, rg_index: usize) -> (r: Result<RowGroupReader, Error>)
        requires
            self.well_formed(),
        ensures
            rg_index >= self.file().groups.len() ==> r is Err && r->Err_0 == Error::RowGroupRange,
            rg_index < self.file().groups.len() ==> {
                let n = self.file().schema.columns.len();
                let order = match self.projection() {
                    Some(list) => list,
                    None => all_columns(n),
                };
                is_group_result(
                    self.file(),
                    self.contents(),
                    self.dependable(),
                    self.failures(),
                    rg_index as int,
                    flags(order, n),
                    order,
                    r,
                )
            },
    ;

    /// Opens a row group with the given columns. They come out in ascending order.
    fn row_group_reader_projected(&self, rg_index: usize, columns: &[usize]) -> (r: Result<
        RowGroupReader,
        Error,
    >)
        requires
            self.well_formed(),
        ensures
            rg_index >= self.file().groups.len() ==> r is Err && r->Err_0 == Error::RowGroupRange,
            rg_index < self.file().groups.len() ==> {
                let n = self.file().schema.columns.len();
                let projected = flags(columns@, n);
                if exists|i: int| 0 <= i < columns@.len() && #[trigger] columns@[i] >= n {
                    r is Err && r->Err_0 == Error::ColumnRange
                } else {
                    is_group_result(
                        self.file(),
                        self.contents(),
                        self.dependable(),
                        self.failures(),
                        rg_index as int,
                        projected,
                        flagged(projected, n),
                        r,
                    )
                }
            },
            rg_index < self.file().groups.len() && columns@.len() == 0 ==> r is Ok,
    ;
}

/// Reads a file.
pub struct MosaicReader<I: InputFile> {
    input: I,
    schema: MosaicSchema,
    row_group_metas: Vec<RowGroupMeta>,
    compression: u8,
    projection: Option<Vec<usize>>,
}

/// Whether `r` is what opening a file of the given length may give. It is sure to be
/// what the bytes say where the file is dependable and its schema block was made here.
pub open spec fn is_open_result<I: InputFile>(
    input: I,
    file_len: u64,
    r: Result<MosaicReader<I>, Error>,
) -> bool {
    let file = input.contents().take(file_len as int);
    match r {
        Ok(reader) => {
            &&& reader.well_formed()
            &&& reader.source() == input
            &&& reader.contents() == input.contents()
            &&& reader.dependable() == input.dependable()
            &&& reader.failures() == input.failures()
            &&& reader.projection() is None
            &&& file_len <= input.contents().len()
            &&& parse_file(file) == Ok::<FileView, Error>(reader.file())
        },
        Err(e) => {
            ||| file_len < FOOTER_SIZE && e == Error::FileTooSmall
            ||| file_len <= input.contents().len() && parse_file(file) == Err::<FileView, Error>(e)
            ||| file_len >= FOOTER_SIZE && e is Io && input.failures().contains(e) && !(
            input.dependable() && file_len <= input.contents().len())
            ||| file_len > usize::MAX && e == Error::SizeOverflow
            ||| file_len >= FOOTER_SIZE && e == Error::Decompress && file_len
                <= input.contents().len() && !is_sound_file(file)
        },
    }
}

impl<I: InputFile> MosaicReader<I> {
    /// The file that is read from.
    pub closed spec fn source(&self) -> I {
        self.input
    }

    /// Opens a file of the given length.
    pub fn new(input: I, file_len: u64) -> (r: Result<MosaicReader<I>, Error>)
        ensures
            file_len < FOOTER_SIZE ==> r is Err && r->Err_0 == Error::FileTooSmall,
            is_open_result(input, file_len, r),
            ({
                let file = input.contents().take(file_len as int);
                input.dependable() && file_len <= input.contents().len() && file_len <= usize::MAX
                    && is_sound_file(file) ==> match parse_file(file) {
                    Ok(_) => r is Ok,
                    Err(e) => r is Err && r->Err_0 == e,
                }
            }),
    {
        if file_len < FOOTER_SIZE as u64 {
            return Err(Error::FileTooSmall);
        }
        let ghost file = input.contents().take(file_len as int);
        let (tail_offset, tail_len): (u64, usize) = tail_range(file_len);
        let tail: Vec<u8> = match input::read_range(&input, tail_offset, tail_len) {
            Err(e) => {
                return Err(e);
            },
            Ok(v) => v,
        };
        let end: usize = tail.len() - FOOTER_SIZE;
        let last: Vec<u8> = bytes::copy_range(&tail, end, tail.len());
        assert(last@ =~= file.skip(file_len - FOOTER_SIZE));
        let f: Footer = match layout::read_footer(&last, file_len) {
            Err(e) => {
                return Err(e);
            },
            Ok(v) => v,
        };
        let ghost goal = file.subrange(f.schema_offset as int, file_len - FOOTER_SIZE);
        let meta: Vec<u8> = match metadata_range(&f, file_len) {
            None => {
                let start: usize = (f.schema_offset - tail_offset) as usize;
                bytes::copy_range(&tail, start, end)
            },
            Some((offset, len)) => {
                if len > usize::MAX as u64 {
                    return Err(Error::SizeOverflow);
                }
                match input::read_range(&input, offset, len as usize) {
                    Err(e) => {
                        return Err(e);
                    },
                    Ok(v) => v,
                }
            },
        };
        assert(meta@ =~= goal);
        match open_metadata(&f, &meta) {
            Err(e) => Err(e),
            Ok((schema, row_group_metas)) => {
                let reader: MosaicReader<I> = MosaicReader {
                    input,
                    schema,
                    row_group_metas,
                    compression: f.compression,
                    projection: None,
                };
                assert(reader.file() =~= parse_meta(f, goal)->Ok_0);
                Ok(reader)
            },
        }
    }

    /// The file that is read from.
    pub fn input(&self) -> (i: &I)
        ensures
            *i == self.source(),
    {
        &self.input
    }
}

/// Which columns are in a list, where all of them are there.
fn make_flags(columns: &[usize], n: usize) -> (r: Result<Vec<bool>, Error>)
    ensures
        match r {
            Ok(v) => v@ == flags(columns@, n as nat) && forall|i: int|
                0 <= i < columns@.len() ==> #[trigger] columns@[i] < n,
            Err(e) => e == Error::ColumnRange && exists|i: int|
                0 <= i < columns@.len() && #[trigger] columns@[i] >= n,
        },
{
    let mut v: Vec<bool> = vec![false;n];
    let mut i: usize = 0;
    while i < columns.len()
        invariant
            i <= columns@.len(),
            v@.len() == n,
            forall|j: int| 0 <= j < i ==> #[trigger] columns@[j] < n,
            forall|c: int|
                0 <= c < n ==> (#[trigger] v@[c] == exists|j: int|
                    0 <= j < i && #[trigger] columns@[j] == c),
        decreases columns@.len() - i,
    {
        let c: usize = columns[i];
        if c >= n {
            return Err(Error::ColumnRange);
        }
        let ghost before = v@;
        v.set(c, true);
        proof {
            assert forall|x: int| 0 <= x < n implies (#[trigger] v@[x] == exists|j: int|
                0 <= j < i + 1 && #[trigger] columns@[j] == x) by {
                if x == c {
                    assert(columns@[i as int] == x);
                } else {
                    assert(v@[x] == before[x]);
                    if before[x] {
                        let j = choose|j: int| 0 <= j < i && #[trigger] columns@[j] == x;
                        assert(columns@[j] == x);
                    }
                }
            }
        }
        i = i + 1;
    }
    proof {
        let goal = flags(columns@, n as nat);
        assert forall|c: int| 0 <= c < n implies v@[c] == goal[c] by {
            if v@[c] {
                let j = choose|j: int| 0 <= j < i && #[trigger] columns@[j] == c;
                assert(columns@[j] == c as usize);
            }
            if columns@.contains(c as usize) {
                let j = choose|j: int| 0 <= j < columns@.len() && columns@[j] == c as usize;
                assert(columns@[j] == c);
            }
        }
        assert(v@ =~= goal);
    }
    Ok(v)
}

/// The columns that are flagged, in ascending order.
fn list_flagged(projected: &Vec<bool>) -> (list: Vec<usize>)
    ensures
        list@ == flagged(projected@, projected@.len()),
        row_group::is_selection(list@, projected@.len()),
{
    let mut list: Vec<usize> = Vec::new();
    let mut c: usize = 0;
    while c < projected.len()
        invariant
            c <= projected@.len(),
            list@ == flagged(projected@, c as nat),
            row_group::is_selection(list@, c as nat),
        decreases projected@.len() - c,
    {
        if projected[c] {
            list.push(c);
        }
        c = c + 1;
    }
    list
}

/// The first column that has the name.
fn find_column(schema: &MosaicSchema, name: &str) -> (r: Option<usize>)
    ensures
        match named(schema@.columns, name@, schema@.columns.len()) {
            Some(c) => r is Some && r->0 == c && 0 <= c < schema.columns@.len(),
            None => r is None,
        },
{
    let ghost cs = schema@.columns;
    let mut c: usize = 0;
    while c < schema.columns.len()
        invariant
            c <= schema.columns@.len(),
            cs == schema@.columns,
            named(cs, name@, c as nat) is None,
        decreases schema.columns@.len() - c,
    {
        assert(cs[c as int] == schema.columns@[c as int]@);
        if types::same_str(&schema.columns[c].name, name) {
            proof {
                lemma_named(cs, name@, (c + 1) as nat, cs.len());
            }
            return Some(c);
        }
        c = c + 1;
    }
    None
}

proof fn lemma_named(columns: Seq<ColumnMetaView>, name: Seq<char>, k: nat, n: nat)
    requires
        k <= n,
        named(columns, name, k) is Some,
    ensures
        named(columns, name, n) == named(columns, name, k),
    decreases n,
{
    if k < n {
        lemma_named(columns, name, k, (n - 1) as nat);
    }
}

proof fn lemma_selected(columns: Seq<ColumnMetaView>, names: Seq<&str>, k: nat, n: nat)
    requires
        k <= n,
        selected(columns, names, k) is Err,
    ensures
        selected(columns, names, n) == selected(columns, names, k),
    decreases n,
{
    if k < n {
        lemma_selected(columns, names, k, (n - 1) as nat);
    }
}

/// Whether a column is in a list.
fn contains(list: &Vec<usize>, c: usize) -> (r: bool)
    ensures
        r == list@.contains(c),
{
    let mut i: usize = 0;
    while i < list.len()
        invariant
            i <= list@.len(),
            forall|j: int| 0 <= j < i ==> #[trigger] list@[j] != c,
        decreases list@.len() - i,
    {
        if list[i] == c {
            return true;
        }
        i = i + 1;
    }
    false
}

/// The columns with the given names, each once.
fn select(schema: &MosaicSchema, names: &[&str]) -> (r: Result<Vec<usize>, Error>)
    ensures
        match selected(schema@.columns, names@, names@.len()) {
            Ok(list) => r is Ok && r->Ok_0@ == list && row_group::is_selection(
                list,
                schema.columns@.len(),
            ),
            Err(e) => r is Err && r->Err_0 == e,
        },
{
    let ghost cs = schema@.columns;
    let mut list: Vec<usize> = Vec::new();
    let mut i: usize = 0;
    while i < names.len()
        invariant
            i <= names@.len(),
            cs == schema@.columns,
            selected(cs, names@, i as nat) == Ok::<Seq<usize>, Error>(list@),
            row_group::is_selection(list@, schema.columns@.len()),
        decreases names@.len() - i,
    {
        match find_column(schema, names[i]) {
            None => {
                proof {
                    lemma_selected(cs, names@, (i + 1) as nat, names@.len());
                }
                return Err(Error::UnknownColumn);
            },
            Some(c) => {
                if !contains(&list, c) {
                    list.push(c);
                }
            },
        }
        i = i + 1;
    }
    Ok(list)
}

impl<I: InputFile> ReaderAccess for MosaicReader<I> {
    closed spec fn file(&self) -> FileView {
        FileView {
            schema: self.schema@,
            groups: layout::group_views(self.row_group_metas@),
            compression: self.compression,
        }
    }

    closed spec fn contents(&self) -> Seq<u8> {
        self.input.contents()
    }

    closed spec fn dependable(&self) -> bool {
        self.input.dependable()
    }

    closed spec fn failures(&self) -> Set<Error> {
        self.input.failures()
    }

    closed spec fn projection(&self) -> Option<Seq<usize>> {
        match self.projection {
            Some(list) => Some(list@),
            None => None,
        }
    }

    closed spec fn well_formed(&self) -> bool {
        &&& self.schema.well_formed()
        &&& forall|i: int|
            0 <= i < self.row_group_metas@.len() ==> row_group::group_ok(
                (#[trigger] self.row_group_metas@[i])@,
                self.schema@,
                u64::MAX as int,
            ) && row_group::group_ok(
                self.row_group_metas@[i]@,
                self.schema@,
                self.input.contents().len() as int,
            )
        &&& self.projection is Some ==> row_group::is_selection(
            self.projection->0@,
            self.schema.columns@.len(),
        )
    }

    fn schema(&self) -> (s: &MosaicSchema) {
        &self.schema
    }

    fn num_row_groups(&self) -> (n: usize) {
        self.row_group_metas.len()
    }

    fn row_group_num_rows(&self, rg_index: usize) -> (r: Result<usize, Error>) {
        if rg_index >= self.row_group_metas.len() {
            return Err(Error::RowGroupRange);
        }
        Ok(self.row_group_metas[rg_index].num_rows)
    }

    fn row_group_stats(&self, rg_index: usize) -> (r: Result<&Vec<ColumnStats>, Error>) {
        if rg_index >= self.row_group_metas.len() {
            return Err(Error::RowGroupRange);
        }
        Ok(&self.row_group_metas[rg_index].stats)
    }

    fn project(&mut self, names: &[&str]) -> (r: Result<(), Error>) {
        match select(&self.schema, names) {
            Err(e) => Err(e),
            Ok(list) => {
                self.projection = Some(list);
                Ok(())
            },
        }
    }

    fn row_group_reader(&self, rg_index: usize) -> (r: Result<RowGroupReader, Error>) {
        if rg_index >= self.row_group_metas.len() {
            return Err(Error::RowGroupRange);
        }
        let n: usize = self.schema.columns.len();
        let mut order: Vec<usize> = Vec::new();
        match &self.projection {
            Some(list) => {
                let mut i: usize = 0;
                while i < list.len()
                    invariant
                        i <= list@.len(),
                        order@ == list@.take(i as int),
                    decreases list@.len() - i,
                {
                    order.push(list[i]);
                    i = i + 1;
                    assert(order@ =~= list@.take(i as int));
                }
                assert(order@ =~= list@);
            },
            None => {
                let mut c: usize = 0;
                while c < n
                    invariant
                        c <= n,
                        order@ == all_columns(c as nat),
                    decreases n - c,
                {
                    order.push(c);
                    c = c + 1;
                    assert(order@ =~= all_columns(c as nat));
                }
            },
        }
        self.open_with(rg_index, order)
    }

    fn row_group_reader_projected(&self, rg_index: usize, columns: &[usize]) -> (r: Result<
        RowGroupReader,
        Error,
    >) {
        if rg_index >= self.row_group_metas.len() {
            return Err(Error::RowGroupRange);
        }
        let projected: Vec<bool> = match make_flags(columns, self.schema.columns.len()) {
            Err(e) => {
                return Err(e);
            },
            Ok(v) => v,
        };
        let order: Vec<usize> = list_flagged(&projected);
        let ghost f = self.file();
        proof {
            if columns@.len() == 0 {
                assert(self.schema.columns.len() == f.schema.columns.len());
                row_group::lemma_none_projected(
                    f.schema,
                    f.groups[rg_index as int],
                    projected@,
                    f.schema.num_buckets,
                );
            }
        }
        assert(f.groups[rg_index as int] == self.row_group_metas@[rg_index as int]@);
        RowGroupReader::open(
            &self.input,
            &self.schema,
            &self.row_group_metas[rg_index],
            self.compression,
            projected,
            order,
            Ghost(f),
        )
    }
}

impl<I: InputFile> MosaicReader<I> {
    /// Opens a row group with the given columns, which come out in the given order.
    fn open_with(&self, rg_index: usize, order: Vec<usize>) -> (r: Result<RowGroupReader, Error>)
        requires
            self.well_formed(),
            rg_index < self.file().groups.len(),
            row_group::is_selection(order@, self.file().schema.columns.len()),
        ensures
            ({
                let n = self.file().schema.columns.len();
                is_group_result(
                    self.file(),
                    self.contents(),
                    self.dependable(),
                    self.failures(),
                    rg_index as int,
                    flags(order@, n),
                    order@,
                    r,
                )
            }),
    {
        let projected: Vec<bool> = match make_flags(&order, self.schema.columns.len()) {
            Err(e) => {
                return Err(e);
            },
            Ok(v) => v,
        };
        let ghost f = self.file();
        assert(f.groups[rg_index as int] == self.row_group_metas@[rg_index as int]@);
        RowGroupReader::open(
            &self.input,
            &self.schema,
            &self.row_group_metas[rg_index],
            self.compression,
            projected,
            order,
            Ghost(f),
        )
    }
}

} // verus!
