//! File-table chunks: records that describe the packed entries of an archive.
//!
//! A record is `header_size: u16`, `real_size: u32`, `compressed_size: u32`,
//! `crc: u32`, `header_size - 16` bytes of encoded name and `offset: u32`,
//! all little-endian; records follow each other until the payload ends.
//!
//! A decoded table is held as a `Vec` of descriptors with pairwise distinct
//! names, and is viewed as the map from name to descriptor.
use crate::codecs::{decode_text, decoded_text};
use crate::le::{
    lemma_u16_le_bytes_of_read, lemma_u16_le_round_trip, lemma_u32_le_bytes_of_read,
    lemma_u32_le_round_trip, push_u16_le, push_u32_le,
    read_u16_le, read_u32_le, u16_le, u16_le_bytes, u32_le, u32_le_bytes,
};
use vstd::hash_map::StringHashMap;
use vstd::prelude::*;
use vstd::slice::slice_to_vec;

verus! {

/// The longest encoded name a record may carry, in bytes.
pub const MAX_NAME_LEN: usize = 520;

/// Bytes of a record besides its name.
pub const RECORD_FIXED_LEN: usize = 18;

/// `header_size` counts this many bytes besides the name.
pub const HEADER_SIZE_BASE: u16 = 16;

/// One packed entry of an archive.
#[derive(Debug, Clone)]
pub struct FileDescriptor {
    pub name: String,
    /// Absolute offset of the payload within the archive file.
    pub offset: u32,
    /// Size of the entry once decompressed; zero marks a directory.
    pub real_size: u32,
    /// Bytes stored in the archive; equal to `real_size` when stored as is.
    pub compressed_size: u32,
    /// CRC-32 of the decompressed payload.
    pub crc: u32,
}

/// What a descriptor says, with its name as characters.
pub struct DescriptorModel {
    pub name: Seq<char>,
    pub offset: u32,
    pub real_size: u32,
    pub compressed_size: u32,
    pub crc: u32,
}

impl View for FileDescriptor {
    type V = DescriptorModel;

    open spec fn view(&self) -> DescriptorModel {
        DescriptorModel {
            name: self.name@,
            offset: self.offset,
            real_size: self.real_size,
            compressed_size: self.compressed_size,
            crc: self.crc,
        }
    }
}

impl FileDescriptor {
    /// Whether the entry is a directory placeholder, with no payload.
    pub open spec fn spec_is_directory(&self) -> bool {
        self.real_size == 0
    }

    /// Whether the payload is stored compressed.
    pub open spec fn spec_is_compressed(&self) -> bool {
        self.real_size != self.compressed_size
    }

    pub fn is_directory(&self) -> (r: bool)
        ensures
            r == self.spec_is_directory(),
    {
        self.real_size == 0
    }

    pub fn is_compressed(&self) -> (r: bool)
        ensures
            r == self.spec_is_compressed(),
    {
        self.real_size != self.compressed_size
    }
}

/// No two descriptors of `s` share a name.
pub open spec fn names_unique(s: Seq<FileDescriptor>) -> bool {
    forall|i: int, j: int| 0 <= i < j < s.len() ==> s[i].name@ != s[j].name@
}

/// The map from name to descriptor that `s` holds; of two descriptors with
/// one name the later one counts.
pub open spec fn table_map(s: Seq<FileDescriptor>) -> Map<Seq<char>, DescriptorModel>
    decreases s.len(),
{
    if s.len() == 0 {
        Map::empty()
    } else {
        table_map(s.drop_last()).insert(s.last().name@, s.last()@)
    }
}

pub proof fn lemma_table_map_dom(s: Seq<FileDescriptor>)
    ensures
        table_map(s).dom().finite(),
        forall|n: Seq<char>|
            #![trigger table_map(s).dom().contains(n)]
            table_map(s).dom().contains(n) <==> exists|i: int| 0 <= i < s.len() && s[i].name@ == n,
    decreases s.len(),
{
    if s.len() > 0 {
        lemma_table_map_dom(s.drop_last());
        assert forall|n: Seq<char>|
            table_map(s).dom().contains(n) implies exists|i: int|
                0 <= i < s.len() && s[i].name@ == n by {
            if n != s.last().name@ {
                let i = choose|i: int| 0 <= i < s.len() - 1 && s.drop_last()[i].name@ == n;
                assert(s[i].name@ == n);
            } else {
                assert(s[s.len() - 1].name@ == n);
            }
        }
        assert forall|n: Seq<char>|
            (exists|i: int| 0 <= i < s.len() && s[i].name@ == n) implies table_map(
            s).dom().contains(n) by {
            let i = choose|i: int| 0 <= i < s.len() && s[i].name@ == n;
            if i < s.len() - 1 {
                assert(s.drop_last()[i].name@ == n);
            }
        }
    }
}

/// In a table with distinct names each descriptor is the one its name maps to.
pub proof fn lemma_table_map_index(s: Seq<FileDescriptor>, i: int)
    requires
        names_unique(s),
        0 <= i < s.len(),
    ensures
        table_map(s).dom().contains(s[i].name@),
        table_map(s)[s[i].name@] == s[i]@,
    decreases s.len(),
{
    if i < s.len() - 1 {
        lemma_table_map_index(s.drop_last(), i);
        assert(s.drop_last()[i] == s[i]);
    }
}

/// A table with distinct names maps as many names as it holds descriptors.
pub proof fn lemma_table_map_len(s: Seq<FileDescriptor>)
    requires
        names_unique(s),
    ensures
        table_map(s).dom().len() == s.len(),
    decreases s.len(),
{
    if s.len() > 0 {
        let t = s.drop_last();
        lemma_table_map_len(t);
        lemma_table_map_dom(t);
        if table_map(t).dom().contains(s.last().name@) {
            let i = choose|i: int| 0 <= i < t.len() && t[i].name@ == s.last().name@;
            assert(s[i].name@ == s[s.len() - 1].name@);
        }
    }
}

/// Replacing the descriptor that carries a name changes only what that name maps to.
pub proof fn lemma_table_map_update(s: Seq<FileDescriptor>, i: int, d: FileDescriptor)
    requires
        names_unique(s),
        0 <= i < s.len(),
        s[i].name@ == d.name@,
    ensures
        names_unique(s.update(i, d)),
        table_map(s.update(i, d)) == table_map(s).insert(d.name@, d@),
    decreases s.len(),
{
    let u = s.update(i, d);
    if i == s.len() - 1 {
        assert(u.drop_last() == s.drop_last());
        lemma_table_map_dom(s.drop_last());
        lemma_table_map_index(s, i);
        assert(table_map(s) == table_map(s.drop_last()).insert(s.last().name@, s.last()@));
        assert(table_map(u) =~= table_map(s).insert(d.name@, d@));
    } else {
        let t = s.drop_last();
        lemma_table_map_update(t, i, d);
        assert(u.drop_last() == t.update(i, d));
        assert(u.last() == s.last());
        assert(s.last().name@ != d.name@) by {
            assert(s[i].name@ != s[s.len() - 1].name@);
        }
        assert(table_map(u) =~= table_map(s).insert(d.name@, d@));
    }
}

/// A table of descriptors with distinct names, indexed by name.
pub struct FileTable {
    entries: Vec<FileDescriptor>,
    index: StringHashMap<usize>,
}

impl FileTable {
    /// The descriptors and the index agree: each name maps to the position
    /// of the one descriptor that carries it.
    pub closed spec fn wf(&self) -> bool {
        &&& names_unique(self.entries@)
        &&& forall|n: Seq<char>|
            #![trigger self.index@.contains_key(n)]
            self.index@.contains_key(n) ==> self.index@[n] < self.entries@.len()
                && self.entries@[self.index@[n] as int].name@ == n
        &&& forall|i: int|
            0 <= i < self.entries@.len() ==> self.index@.contains_key(
                #[trigger] self.entries@[i].name@,
            )
    }

    /// The descriptors, in the order their names were first inserted.
    pub closed spec fn spec_entries(&self) -> Seq<FileDescriptor> {
        self.entries@
    }

    /// The map from name to descriptor.
    pub open spec fn map(&self) -> Map<Seq<char>, DescriptorModel> {
        table_map(self.spec_entries())
    }

    pub fn new() -> (r: FileTable)
        ensures
            r.wf(),
            r.spec_entries() == Seq::<FileDescriptor>::empty(),
            r.map() == Map::<Seq<char>, DescriptorModel>::empty(),
    {
        let r = FileTable { entries: Vec::new(), index: StringHashMap::new() };
        assert(table_map(r.entries@) =~= Map::empty());
        r
    }

    pub proof fn lemma_wf(&self)
        requires
            self.wf(),
        ensures
            names_unique(self.spec_entries()),
    {
    }

    pub fn len(&self) -> (r: usize)
        ensures
            r == self.spec_entries().len(),
    {
        self.entries.len()
    }

    pub fn entries(&self) -> (r: &Vec<FileDescriptor>)
        requires
            self.wf(),
        ensures
            r@ == self.spec_entries(),
            names_unique(r@),
    {
        &self.entries
    }

    pub fn into_entries(self) -> (r: Vec<FileDescriptor>)
        requires
            self.wf(),
        ensures
            r@ == self.spec_entries(),
            names_unique(r@),
    {
        self.entries
    }

    /// Inserts `d`, replacing the descriptor of the same name in place;
    /// returns the position `d` now has.
    pub fn insert(&mut self, d: FileDescriptor) -> (r: usize)
        requires
            old(self).wf(),
        ensures
            final(self).wf(),
            final(self).map() == old(self).map().insert(d.name@, d@),
            old(self).map().dom().contains(d.name@) ==> r < old(self).spec_entries().len()
                && final(self).spec_entries() == old(self).spec_entries().update(r as int, d),
            !old(self).map().dom().contains(d.name@) ==> r == old(self).spec_entries().len()
                && final(self).spec_entries() == old(self).spec_entries().push(d),
    {
        proof {
            lemma_table_map_dom(self.entries@);
        }
        match self.index.get(d.name.as_str()) {
            Some(i) => {
                let i = *i;
                proof {
                    lemma_table_map_update(self.entries@, i as int, d);
                }
                self.entries.set(i, d);
                proof {
                    assert forall|k: int|
                        0 <= k < self.entries@.len() implies self.index@.contains_key(
                        #[trigger] self.entries@[k].name@,
                    ) by {
                        if k != i {
                            assert(self.entries@[k] == old(self).entries@[k]);
                        }
                    }
                }
                i
            },
            None => {
                proof {
                    assert forall|k: int| 0 <= k < self.entries@.len() implies self.entries@[k].name@
                        != d.name@ by {
                        assert(self.index@.contains_key(self.entries@[k].name@));
                    }
                }
                let pos = self.entries.len();
                let name = d.name.clone();
                self.entries.push(d);
                self.index.insert(name, pos);
                proof {
                    assert(self.entries@.drop_last() =~= old(self).entries@);
                    assert forall|n: Seq<char>| #[trigger]
                        self.index@.contains_key(n) implies self.index@[n] < self.entries@.len()
                        && self.entries@[self.index@[n] as int].name@ == n by {
                        if n != d.name@ {
                            assert(old(self).index@.contains_key(n));
                        }
                    }
                    assert forall|k: int|
                        0 <= k < self.entries@.len() implies self.index@.contains_key(
                        #[trigger] self.entries@[k].name@,
                    ) by {
                        if k < pos {
                            assert(old(self).index@.contains_key(old(self).entries@[k].name@));
                        }
                    }
                }
                pos
            },
        }
    }
}

/// Why a file-table payload was refused.
#[derive(Debug, Clone, Copy, PartialEq, Eq, Structural)]
pub enum FileTableError {
    /// The payload ends inside a record.
    Truncated,
    /// A record's `header_size` is below the size of its fixed fields.
    BadHeaderSize,
    /// A record's name is longer than `MAX_NAME_LEN` bytes.
    NameTooLong,
    /// A name does not decode under the configured text encoding.
    BadName,
}

/// A record as it stands in the payload, its name still encoded.
#[derive(Debug, Clone)]
pub struct RawRecord {
    pub real_size: u32,
    pub compressed_size: u32,
    pub crc: u32,
    pub name: Vec<u8>,
    pub offset: u32,
}

/// What a record says.
pub struct RecordModel {
    pub real_size: u32,
    pub compressed_size: u32,
    pub crc: u32,
    pub name: Seq<u8>,
    pub offset: u32,
}

impl View for RawRecord {
    type V = RecordModel;

    open spec fn view(&self) -> RecordModel {
        RecordModel {
            real_size: self.real_size,
            compressed_size: self.compressed_size,
            crc: self.crc,
            name: self.name@,
            offset: self.offset,
        }
    }
}

pub open spec fn records_view(v: Seq<RawRecord>) -> Seq<RecordModel> {
    Seq::new(v.len(), |i: int| v[i]@)
}

/// The length of the name of the record at the start of `b`.
pub open spec fn name_len_at(b: Seq<u8>) -> int {
    u16_le(b, 0) - HEADER_SIZE_BASE
}

/// Why the record at the start of `b` cannot be read, if it cannot.
pub open spec fn record_error(b: Seq<u8>) -> Option<FileTableError> {
    if b.len() < 14 {
        Some(FileTableError::Truncated)
    } else if u16_le(b, 0) < HEADER_SIZE_BASE {
        Some(FileTableError::BadHeaderSize)
    } else if name_len_at(b) > MAX_NAME_LEN {
        Some(FileTableError::NameTooLong)
    } else if b.len() < RECORD_FIXED_LEN + name_len_at(b) {
        Some(FileTableError::Truncated)
    } else {
        None
    }
}

/// The number of bytes the record at the start of `b` takes.
pub open spec fn record_len(b: Seq<u8>) -> int {
    RECORD_FIXED_LEN + name_len_at(b)
}

/// The record at the start of `b`, where `record_error(b)` is `None`.
pub open spec fn record_at(b: Seq<u8>) -> RecordModel {
    let n = name_len_at(b);
    RecordModel {
        real_size: u32_le(b, 2) as u32,
        compressed_size: u32_le(b, 6) as u32,
        crc: u32_le(b, 10) as u32,
        name: b.subrange(14, 14 + n),
        offset: u32_le(b, 14 + n) as u32,
    }
}

/// The records of a file-table payload, in order, or the first reason it is refused.
pub open spec fn parse_records(b: Seq<u8>) -> Result<Seq<RecordModel>, FileTableError>
    decreases b.len(),
{
    if b.len() == 0 {
        Ok(Seq::empty())
    } else {
        match record_error(b) {
            Some(e) => Err(e),
            None => match parse_records(b.subrange(record_len(b), b.len() as int)) {
                Ok(rest) => Ok(seq![record_at(b)] + rest),
                Err(e) => Err(e),
            },
        }
    }
}

/// The descriptor a record stands for, its name decoded under `encoding`.
pub open spec fn record_descriptor(encoding: encoding_rs::Encoding, r: RecordModel) -> DescriptorModel {
    DescriptorModel {
        name: decoded_text(encoding, r.name).0,
        offset: r.offset,
        real_size: r.real_size,
        compressed_size: r.compressed_size,
        crc: r.crc,
    }
}

/// `m` with the descriptors of `rs` inserted in order, or `BadName` where a
/// name does not decode.
pub open spec fn insert_records(
    encoding: encoding_rs::Encoding,
    rs: Seq<RecordModel>,
    m: Map<Seq<char>, DescriptorModel>,
) -> Result<Map<Seq<char>, DescriptorModel>, FileTableError>
    decreases rs.len(),
{
    if rs.len() == 0 {
        Ok(m)
    } else if decoded_text(encoding, rs[0].name).1 {
        Err(FileTableError::BadName)
    } else {
        insert_records(encoding, rs.drop_first(), m.insert(decoded_text(encoding, rs[0].name).0, record_descriptor(encoding, rs[0])))
    }
}

/// The table `m` becomes once the file-table payload `b` is added to it.
pub open spec fn decode_table(
    encoding: encoding_rs::Encoding,
    b: Seq<u8>,
    m: Map<Seq<char>, DescriptorModel>,
) -> Result<Map<Seq<char>, DescriptorModel>, FileTableError> {
    match parse_records(b) {
        Ok(rs) => insert_records(encoding, rs, m),
        Err(e) => Err(e),
    }
}

/// The bytes that encode one record.
pub open spec fn record_bytes(r: RecordModel) -> Seq<u8> {
    u16_le_bytes((r.name.len() + HEADER_SIZE_BASE) as u16) + u32_le_bytes(r.real_size) + u32_le_bytes(r.compressed_size)
        + u32_le_bytes(r.crc) + r.name + u32_le_bytes(r.offset)
}

/// The bytes that encode a sequence of records.
pub open spec fn encode_records(rs: Seq<RecordModel>) -> Seq<u8>
    decreases rs.len(),
{
    if rs.len() == 0 {
        Seq::empty()
    } else {
        record_bytes(rs[0]) + encode_records(rs.drop_first())
    }
}

/// Reads the record at `pos`, where `record_error` found none there.
fn read_record(data: &[u8], pos: usize) -> (r: RawRecord)
    requires
        pos <= data@.len(),
        record_error(data@.subrange(pos as int, data@.len() as int)) is None,
    ensures
        r@ == record_at(data@.subrange(pos as int, data@.len() as int)),
{
    let ghost rest = data@.subrange(pos as int, data@.len() as int);
    let header_size = read_u16_le(data, pos);
    assert(header_size as int == u16_le(rest, 0));
    assert(rest.len() >= RECORD_FIXED_LEN + name_len_at(rest));
    let len = data.len();
    let n = (header_size - HEADER_SIZE_BASE) as usize;
    let real_size = read_u32_le(data, pos + 2);
    let compressed_size = read_u32_le(data, pos + 6);
    let crc = read_u32_le(data, pos + 10);
    let name = slice_to_vec(&data[pos + 14..pos + 14 + n]);
    let offset = read_u32_le(data, pos + 14 + n);
    assert(real_size as int == u32_le(rest, 2));
    assert(compressed_size as int == u32_le(rest, 6));
    assert(crc as int == u32_le(rest, 10));
    assert(offset as int == u32_le(rest, 14 + n));
    assert(name@ =~= rest.subrange(14, 14 + n));
    RawRecord { real_size, compressed_size, crc, name, offset }
}

/// The names of the records of a payload are at most `MAX_NAME_LEN` bytes long.
pub proof fn lemma_record_names_fit(b: Seq<u8>)
    requires
        parse_records(b) is Ok,
    ensures
        forall|i: int|
            0 <= i < parse_records(b)->Ok_0.len() ==> (#[trigger] parse_records(b)->Ok_0[i]).name.len()
                <= MAX_NAME_LEN,
    decreases b.len(),
{
    if b.len() > 0 {
        let tail = b.subrange(record_len(b), b.len() as int);
        lemma_record_names_fit(tail);
        let rs = parse_records(b)->Ok_0;
        assert forall|i: int| 0 <= i < rs.len() implies (#[trigger] rs[i]).name.len() <= MAX_NAME_LEN by {
            if i > 0 {
                assert(rs[i] == parse_records(tail)->Ok_0[i - 1]);
            }
        }
    }
}

/// Splits a file-table payload into its records.
pub fn read_records(data: &[u8]) -> (r: Result<Vec<RawRecord>, FileTableError>)
    ensures
        match parse_records(data@) {
            Ok(rs) => r is Ok && records_view(r->Ok_0@) == rs,
            Err(e) => r == Err::<Vec<RawRecord>, FileTableError>(e),
        },
{
    let mut records: Vec<RawRecord> = Vec::new();
    let mut pos: usize = 0;
    assert(data@.subrange(0, data@.len() as int) =~= data@);
    proof {
        assert(records_view(records@) =~= Seq::<RecordModel>::empty());
        match parse_records(data@) {
            Ok(x) => {
                assert(records_view(records@) + x =~= x);
            },
            Err(e) => {},
        }
    }
    while pos < data.len()
        invariant
            pos <= data@.len(),
            parse_records(data@) == match parse_records(data@.subrange(pos as int, data@.len() as int)) {
                Ok(rest) => Ok(records_view(records@) + rest),
                Err(e) => Err(e),
            },
        decreases data@.len() - pos,
    {
        let ghost rest = data@.subrange(pos as int, data@.len() as int);
        let left = data.len() - pos;
        if left < 14 {
            return Err(FileTableError::Truncated);
        }
        let header_size = read_u16_le(data, pos);
        assert(header_size as int == u16_le(rest, 0));
        if header_size < HEADER_SIZE_BASE {
            return Err(FileTableError::BadHeaderSize);
        }
        let n = (header_size - HEADER_SIZE_BASE) as usize;
        if n > MAX_NAME_LEN {
            return Err(FileTableError::NameTooLong);
        }
        if left < RECORD_FIXED_LEN + n {
            return Err(FileTableError::Truncated);
        }
        let record = read_record(data, pos);
        let ghost before = records@;
        records.push(record);
        let next = pos + RECORD_FIXED_LEN + n;
        proof {
            let tail = data@.subrange(next as int, data@.len() as int);
            assert(rest.subrange(record_len(rest), rest.len() as int) =~= tail);
            assert(records_view(records@) =~= records_view(before) + seq![record@]);
            match parse_records(tail) {
                Ok(x) => {
                    assert(records_view(before) + (seq![record@] + x) =~= records_view(records@) + x);
                },
                Err(e) => {},
            }
        }
        pos = next;
    }
    proof {
        assert(data@.subrange(pos as int, data@.len() as int) =~= Seq::<u8>::empty());
        assert(records_view(records@) + Seq::<RecordModel>::empty() =~= records_view(records@));
    }
    Ok(records)
}

/// Adds the descriptors of a file-table payload to `table`, a later
/// descriptor replacing an earlier one of the same name.
pub fn add_file_descriptors(
    table: &mut FileTable,
    data: &[u8],
    encoding: &'static encoding_rs::Encoding,
) -> (r: Result<(), FileTableError>)
    requires
        old(table).wf(),
    ensures
        final(table).wf(),
        match decode_table(*encoding, data@, old(table).map()) {
            Ok(m) => r is Ok && final(table).map() == m,
            Err(e) => r == Err::<(), FileTableError>(e),
        },
{
    let records = match read_records(data) {
        Ok(records) => records,
        Err(e) => return Err(e),
    };
    let ghost rs = records_view(records@);
    let mut i: usize = 0;
    assert(rs.subrange(0, rs.len() as int) =~= rs);
    proof {
        lemma_record_names_fit(data@);
    }
    while i < records.len()
        invariant
            i <= records@.len(),
            rs == records_view(records@),
            parse_records(data@) == Ok::<Seq<RecordModel>, FileTableError>(rs),
            forall|k: int| 0 <= k < rs.len() ==> (#[trigger] rs[k]).name.len() <= MAX_NAME_LEN,
            table.wf(),
            insert_records(*encoding, rs, old(table).map()) == insert_records(
                *encoding,
                rs.subrange(i as int, rs.len() as int),
                table.map(),
            ),
        decreases records@.len() - i,
    {
        let ghost tail = rs.subrange(i as int, rs.len() as int);
        assert(tail[0] == records@[i as int]@);
        let (name, had_errors) = decode_text(encoding, records[i].name.as_slice());
        if had_errors {
            return Err(FileTableError::BadName);
        }
        let d = FileDescriptor {
            name,
            offset: records[i].offset,
            real_size: records[i].real_size,
            compressed_size: records[i].compressed_size,
            crc: records[i].crc,
        };
        assert(d@ == record_descriptor(*encoding, tail[0]));
        table.insert(d);
        assert(tail.drop_first() =~= rs.subrange(i + 1, rs.len() as int));
        i = i + 1;
    }
    assert(rs.subrange(i as int, rs.len() as int) =~= Seq::<RecordModel>::empty());
    Ok(())
}

/// Decodes a file-table payload into a table of descriptors, names decoded
/// under `encoding`.
pub fn read_file_descriptors(data: &[u8], encoding: &'static encoding_rs::Encoding) -> (r: Result<
    Vec<FileDescriptor>,
    FileTableError,
>)
    ensures
        match decode_table(*encoding, data@, Map::empty()) {
            Ok(m) => r is Ok && names_unique(r->Ok_0@) && table_map(r->Ok_0@) == m,
            Err(e) => r == Err::<Vec<FileDescriptor>, FileTableError>(e),
        },
{
    let mut table = FileTable::new();
    match add_file_descriptors(&mut table, data, encoding) {
        Ok(()) => Ok(table.into_entries()),
        Err(e) => Err(e),
    }
}

/// Encodes records back into a file-table payload.
pub fn encode_file_table(records: &Vec<RawRecord>) -> (r: Vec<u8>)
    requires
        forall|i: int| 0 <= i < records@.len() ==> records@[i].name@.len() + HEADER_SIZE_BASE <= u16::MAX,
    ensures
        r@ == encode_records(records_view(records@)),
{
    let mut out: Vec<u8> = Vec::new();
    let mut i: usize = records.len();
    assert(records_view(records@).subrange(i as int, records@.len() as int) =~= Seq::<RecordModel>::empty());
    while i > 0
        invariant
            i <= records@.len(),
            forall|k: int| 0 <= k < records@.len() ==> records@[k].name@.len() + HEADER_SIZE_BASE <= u16::MAX,
            out@ == encode_records(records_view(records@).subrange(i as int, records@.len() as int)),
        decreases i,
    {
        i = i - 1;
        let r = &records[i];
        let mut bytes: Vec<u8> = Vec::new();
        push_u16_le(&mut bytes, (r.name.len() as u16) + HEADER_SIZE_BASE);
        push_u32_le(&mut bytes, r.real_size);
        push_u32_le(&mut bytes, r.compressed_size);
        push_u32_le(&mut bytes, r.crc);
        bytes.extend_from_slice(r.name.as_slice());
        push_u32_le(&mut bytes, r.offset);
        assert(bytes@ =~= record_bytes(r@));
        let ghost prev = out@;
        bytes.append(&mut out);
        out = bytes;
        proof {
            let s = records_view(records@).subrange(i as int, records@.len() as int);
            assert(s.drop_first() =~= records_view(records@).subrange(i + 1, records@.len() as int));
            assert(s[0] == r@);
        }
    }
    assert(records_view(records@).subrange(0, records@.len() as int) =~= records_view(records@));
    out
}

/// The bytes of the record at the start of `b` are the encoding of that record.
proof fn lemma_record_bytes_at(b: Seq<u8>)
    requires
        b.len() > 0,
        record_error(b) is None,
    ensures
        record_bytes(record_at(b)) == b.subrange(0, record_len(b)),
{
    let k = record_len(b);
    let n = name_len_at(b);
    let r = record_at(b);
    lemma_u16_le_bytes_of_read(b, 0);
    lemma_u32_le_bytes_of_read(b, 2);
    lemma_u32_le_bytes_of_read(b, 6);
    lemma_u32_le_bytes_of_read(b, 10);
    lemma_u32_le_bytes_of_read(b, 14 + n);
    assert(r.name.len() + HEADER_SIZE_BASE == u16_le(b, 0));
    let size_bytes = u16_le_bytes((r.name.len() + HEADER_SIZE_BASE) as u16);
    let real_bytes = u32_le_bytes(r.real_size);
    let stored_bytes = u32_le_bytes(r.compressed_size);
    let crc_bytes = u32_le_bytes(r.crc);
    let offset_bytes = u32_le_bytes(r.offset);
    assert(size_bytes == b.subrange(0, 2));
    assert(real_bytes == b.subrange(2, 6));
    assert(stored_bytes == b.subrange(6, 10));
    assert(crc_bytes == b.subrange(10, 14));
    assert(offset_bytes == b.subrange(14 + n, k));
    assert(size_bytes + real_bytes + stored_bytes + crc_bytes + r.name + offset_bytes =~= b.subrange(0, k));
}

/// Re-encoding the records decoded from a file-table payload gives back the
/// payload, byte for byte.
#[verifier::spinoff_prover]
#[verifier::rlimit(40)]
pub proof fn lemma_records_round_trip(b: Seq<u8>)
    requires
        parse_records(b) is Ok,
    ensures
        encode_records(parse_records(b)->Ok_0) == b,
    decreases b.len(),
{
    if b.len() > 0 {
        let k = record_len(b);
        let tail = b.subrange(k, b.len() as int);
        lemma_records_round_trip(tail);
        let rest = parse_records(tail)->Ok_0;
        let rs = seq![record_at(b)] + rest;
        assert(parse_records(b) == Ok::<Seq<RecordModel>, FileTableError>(rs));
        assert(rs.drop_first() =~= rest);
        assert(rs[0] == record_at(b));
        assert(encode_records(rs) == record_bytes(record_at(b)) + encode_records(rest));
        lemma_record_bytes_at(b);
        assert(b =~= b.subrange(0, k) + tail);
    }
}
/// Records whose names fit are read back from their encoding unchanged.
#[verifier::spinoff_prover]
#[verifier::rlimit(40)]
pub proof fn lemma_encoded_records_parse(rs: Seq<RecordModel>)
    requires
        forall|i: int| 0 <= i < rs.len() ==> rs[i].name.len() <= MAX_NAME_LEN,
    ensures
        parse_records(encode_records(rs)) == Ok::<Seq<RecordModel>, FileTableError>(rs),
    decreases rs.len(),
{
    if rs.len() > 0 {
        let r = rs[0];
        let rest = rs.drop_first();
        let n = r.name.len() as int;
        let tail = encode_records(rest);
        let head = record_bytes(r);
        let b = head + tail;
        assert(encode_records(rs) == b);
        let hs = (n + HEADER_SIZE_BASE) as u16;
        lemma_u16_le_round_trip(hs);
        lemma_u32_le_round_trip(r.real_size);
        lemma_u32_le_round_trip(r.compressed_size);
        lemma_u32_le_round_trip(r.crc);
        lemma_u32_le_round_trip(r.offset);
        assert(head.len() == RECORD_FIXED_LEN + n);
        assert(b.subrange(0, 2) =~= u16_le_bytes(hs));
        assert(b.subrange(2, 6) =~= u32_le_bytes(r.real_size));
        assert(b.subrange(6, 10) =~= u32_le_bytes(r.compressed_size));
        assert(b.subrange(10, 14) =~= u32_le_bytes(r.crc));
        assert(b.subrange(14 + n, 18 + n) =~= u32_le_bytes(r.offset));
        assert(u16_le(b, 0) == u16_le(b.subrange(0, 2), 0));
        assert(u32_le(b, 2) == u32_le(b.subrange(2, 6), 0));
        assert(u32_le(b, 6) == u32_le(b.subrange(6, 10), 0));
        assert(u32_le(b, 10) == u32_le(b.subrange(10, 14), 0));
        assert(u32_le(b, 14 + n) == u32_le(b.subrange(14 + n, 18 + n), 0));
        assert(name_len_at(b) == n);
        assert(record_error(b) is None);
        assert(b.subrange(14, 14 + n) =~= r.name);
        assert(record_at(b) == r);
        assert(b.subrange(record_len(b), b.len() as int) =~= tail);
        assert(forall|i: int| 0 <= i < rest.len() ==> rest[i] == rs[i + 1]);
        lemma_encoded_records_parse(rest);
        assert(b.len() > 0);
        assert(parse_records(b) == Ok::<Seq<RecordModel>, FileTableError>(seq![r] + rest));
        assert(seq![r] + rest =~= rs);
    } else {
        assert(encode_records(rs) == Seq::<u8>::empty());
        assert(rs =~= Seq::<RecordModel>::empty());
    }
}

/// The decoded names of `rs` are pairwise distinct.
pub open spec fn decoded_names_distinct(encoding: encoding_rs::Encoding, rs: Seq<RecordModel>) -> bool {
    forall|i: int, j: int|
        0 <= i < j < rs.len() ==> decoded_text(encoding, rs[i].name).0 != decoded_text(
            encoding,
            rs[j].name,
        ).0
}

/// Whether one of the records of `rs` decodes to the name `n`.
pub open spec fn names_record(encoding: encoding_rs::Encoding, rs: Seq<RecordModel>, n: Seq<char>) -> bool {
    exists|i: int| 0 <= i < rs.len() && decoded_text(encoding, rs[i].name).0 == n
}

/// Inserting records with new, distinct names adds one entry per record.
pub proof fn lemma_insert_records_count(
    encoding: encoding_rs::Encoding,
    rs: Seq<RecordModel>,
    m: Map<Seq<char>, DescriptorModel>,
)
    requires
        insert_records(encoding, rs, m) is Ok,
        m.dom().finite(),
        decoded_names_distinct(encoding, rs),
        forall|n: Seq<char>| names_record(encoding, rs, n) ==> !m.dom().contains(n),
    ensures
        insert_records(encoding, rs, m)->Ok_0.dom().finite(),
        insert_records(encoding, rs, m)->Ok_0.dom().len() == m.dom().len() + rs.len(),
        forall|n: Seq<char>|
            insert_records(encoding, rs, m)->Ok_0.dom().contains(n) <==> (m.dom().contains(n)
                || names_record(encoding, rs, n)),
    decreases rs.len(),
{
    if rs.len() > 0 {
        let n0 = decoded_text(encoding, rs[0].name).0;
        let m1 = m.insert(n0, record_descriptor(encoding, rs[0]));
        let tail = rs.drop_first();
        assert(names_record(encoding, rs, n0));
        assert(decoded_names_distinct(encoding, tail)) by {
            assert forall|i: int, j: int| 0 <= i < j < tail.len() implies decoded_text(
                encoding,
                tail[i].name,
            ).0 != decoded_text(encoding, tail[j].name).0 by {
                assert(tail[i] == rs[i + 1] && tail[j] == rs[j + 1]);
            }
        }
        assert forall|n: Seq<char>| names_record(encoding, tail, n) implies !m1.dom().contains(n) by {
            let i = choose|i: int| 0 <= i < tail.len() && decoded_text(encoding, tail[i].name).0 == n;
            assert(tail[i] == rs[i + 1]);
            assert(names_record(encoding, rs, n));
        }
        lemma_insert_records_count(encoding, tail, m1);
        assert forall|n: Seq<char>|
            insert_records(encoding, rs, m)->Ok_0.dom().contains(n) <==> (m.dom().contains(n)
                || names_record(encoding, rs, n)) by {
            if names_record(encoding, rs, n) && n != n0 {
                let i = choose|i: int| 0 <= i < rs.len() && decoded_text(encoding, rs[i].name).0 == n;
                assert(tail[i - 1] == rs[i]);
                assert(names_record(encoding, tail, n));
            }
            if names_record(encoding, tail, n) {
                let i = choose|i: int| 0 <= i < tail.len() && decoded_text(encoding, tail[i].name).0 == n;
                assert(tail[i] == rs[i + 1]);
            }
        }
    }
}

} // verus!
