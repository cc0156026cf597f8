//! The chunk sequence of an archive and the loader of its header.
//!
//! An archive is a run of chunks. Each starts with an 8-byte header: a
//! little-endian `u32` whose top bit marks a compressed payload and whose
//! other bits give the chunk type, then the little-endian `u32` payload
//! length `L`. A compressed payload is a `u32` decoded length followed by
//! `L - 4` bytes of LH1 data. File-table chunks (`0x1`, `0x86`) and metadata
//! chunks (`666`, `1337`) are read; any other chunk is skipped.
use crate::codecs::{decoded_text, lh1_decode, lh1_decoded};
use crate::file_table::{
    add_file_descriptors, decode_table, decoded_names_distinct, lemma_insert_records_count,
    lemma_table_map_len,
    names_record, names_unique, parse_records, table_map, DescriptorModel, FileDescriptor,
    FileTable, FileTableError, RecordModel,
};
use crate::le::{read_u32_le, u32_le};
use crate::metadata::{read_root_path, root_path_of, MetadataError, MAX_METADATA_LEN};
use vstd::prelude::*;

verus! {

/// Bytes of a chunk header.
pub const CHUNK_HEADER_LEN: usize = 8;

/// The bit of the first header word that marks a compressed payload.
pub const COMPRESSED_FLAG: u32 = 0x8000_0000;

pub const FILE_TABLE_CHUNK: u32 = 0x1;

pub const FILE_TABLE_CHUNK_ALT: u32 = 0x86;

pub const METADATA_CHUNK: u32 = 666;

pub const METADATA_CHUNK_ALT: u32 = 1337;

/// A chunk header, decoded.
#[derive(Debug, Clone, Copy, PartialEq, Eq, Structural)]
pub struct ChunkHeader {
    /// The chunk type, without the compression bit.
    pub id: u32,
    pub compressed: bool,
    /// The payload length as stored, the decoded-length prefix included.
    pub len: u32,
}

/// Why an archive was refused.
#[derive(Debug, Clone, Copy, PartialEq, Eq, Structural)]
pub enum ArchiveError {
    /// The archive ends inside a chunk header or a chunk payload.
    TruncatedChunk,
    /// A compressed payload is too short to hold its decoded length.
    BadChunkLength,
    /// A compressed payload does not decode.
    Decompression,
    FileTable(FileTableError),
    Metadata(MetadataError),
}

pub open spec fn is_file_table_chunk(id: u32) -> bool {
    id == FILE_TABLE_CHUNK || id == FILE_TABLE_CHUNK_ALT
}

pub open spec fn is_metadata_chunk(id: u32) -> bool {
    id == METADATA_CHUNK || id == METADATA_CHUNK_ALT
}

/// The header of the chunk at the start of `b`.
pub open spec fn header_at(b: Seq<u8>) -> ChunkHeader {
    let raw = u32_le(b, 0);
    ChunkHeader {
        id: (raw % 0x8000_0000) as u32,
        compressed: raw >= 0x8000_0000,
        len: u32_le(b, 4) as u32,
    }
}

/// The bytes a chunk payload stands for: the payload itself, or what it
/// decodes to when compressed.
pub open spec fn chunk_data(compressed: bool, payload: Seq<u8>) -> Result<Seq<u8>, ArchiveError> {
    if !compressed {
        Ok(payload)
    } else if payload.len() < 4 {
        Err(ArchiveError::BadChunkLength)
    } else {
        match lh1_decoded(payload.subrange(4, payload.len() as int), u32_le(payload, 0) as nat) {
            Some(d) => Ok(d),
            None => Err(ArchiveError::Decompression),
        }
    }
}

/// What the loader knows of an archive so far: its table, once a
/// file-table chunk was met, and its install root.
pub struct LoadModel {
    pub files: Option<Map<Seq<char>, DescriptorModel>>,
    pub root: Seq<char>,
}

pub open spec fn initial_load() -> LoadModel {
    LoadModel { files: None, root: Seq::empty() }
}

/// The state after a chunk of type `id` whose data is `data`.
pub open spec fn apply_chunk(
    encoding: encoding_rs::Encoding,
    st: LoadModel,
    id: u32,
    data: Seq<u8>,
) -> Result<LoadModel, ArchiveError> {
    if is_file_table_chunk(id) {
        let before = match st.files {
            Some(m) => m,
            None => Map::empty(),
        };
        match decode_table(encoding, data, before) {
            Ok(m) => Ok(LoadModel { files: Some(m), root: st.root }),
            Err(e) => Err(ArchiveError::FileTable(e)),
        }
    } else if is_metadata_chunk(id) {
        if data.len() > MAX_METADATA_LEN {
            Err(ArchiveError::Metadata(MetadataError::TooLarge))
        } else if decoded_text(encoding, data).1 {
            Err(ArchiveError::Metadata(MetadataError::BadText))
        } else {
            match root_path_of(decoded_text(encoding, data).0) {
                Some(p) => Ok(LoadModel { files: st.files, root: p }),
                None => Ok(st),
            }
        }
    } else {
        Ok(st)
    }
}

/// The state after the chunk with header `h` and stored payload `payload`.
#[verifier::opaque]
pub open spec fn step_chunk(
    encoding: encoding_rs::Encoding,
    st: LoadModel,
    h: ChunkHeader,
    payload: Seq<u8>,
) -> Result<LoadModel, ArchiveError> {
    if !is_file_table_chunk(h.id) && !is_metadata_chunk(h.id) {
        Ok(st)
    } else {
        match chunk_data(h.compressed, payload) {
            Ok(d) => apply_chunk(encoding, st, h.id, d),
            Err(e) => Err(e),
        }
    }
}

/// The state after all the chunks of `b`, read from `st` on.
pub open spec fn load_chunks(encoding: encoding_rs::Encoding, b: Seq<u8>, st: LoadModel) -> Result<
    LoadModel,
    ArchiveError,
>
    decreases b.len(),
{
    if b.len() == 0 {
        Ok(st)
    } else if b.len() < CHUNK_HEADER_LEN {
        Err(ArchiveError::TruncatedChunk)
    } else {
        let h = header_at(b);
        let end = CHUNK_HEADER_LEN + h.len;
        if b.len() < end {
            Err(ArchiveError::TruncatedChunk)
        } else {
            match step_chunk(encoding, st, h, b.subrange(CHUNK_HEADER_LEN as int, end)) {
                Ok(next) => load_chunks(encoding, b.subrange(end, b.len() as int), next),
                Err(e) => Err(e),
            }
        }
    }
}

/// Decodes a chunk header from its eight bytes.
pub fn read_chunk_header(bytes: &[u8]) -> (r: ChunkHeader)
    requires
        bytes@.len() >= CHUNK_HEADER_LEN,
    ensures
        r == header_at(bytes@),
{
    let raw = read_u32_le(bytes, 0);
    let len = read_u32_le(bytes, 4);
    ChunkHeader { id: raw % COMPRESSED_FLAG, compressed: raw >= COMPRESSED_FLAG, len }
}

/// Whether the loader reads the payload of a chunk of this header; the
/// payloads of other chunks are skipped.
pub fn wants_payload(h: &ChunkHeader) -> (r: bool)
    ensures
        r == (is_file_table_chunk(h.id) || is_metadata_chunk(h.id)),
{
    h.id == FILE_TABLE_CHUNK || h.id == FILE_TABLE_CHUNK_ALT || h.id == METADATA_CHUNK || h.id
        == METADATA_CHUNK_ALT
}

/// The data of a chunk payload, decompressed where the header says so.
pub fn read_chunk_data(compressed: bool, payload: &[u8]) -> (r: Result<Vec<u8>, ArchiveError>)
    ensures
        match chunk_data(compressed, payload@) {
            Ok(d) => r is Ok && r->Ok_0@ == d,
            Err(e) => r == Err::<Vec<u8>, ArchiveError>(e),
        },
{
    if !compressed {
        return Ok(vstd::slice::slice_to_vec(payload));
    }
    if payload.len() < 4 {
        return Err(ArchiveError::BadChunkLength);
    }
    let decoded_len = read_u32_le(payload, 0);
    match lh1_decode(&payload[4..payload.len()], decoded_len as usize) {
        Ok(d) => Ok(d),
        Err(_) => Err(ArchiveError::Decompression),
    }
}

/// The parse result of one archive.
#[derive(Debug, Clone)]
pub struct ArchiveHeader {
    pub archive_path: String,
    /// The install root taken from metadata; empty where there is none.
    pub output_root_path: String,
    pub files: Vec<FileDescriptor>,
}

/// Reads archive headers with one text encoding.
pub struct ArchiveReader {
    pub encoding: &'static encoding_rs::Encoding,
}

/// The loader's state while it walks the chunks of one archive.
pub struct HeaderLoader {
    files: Option<FileTable>,
    root_path: String,
}

impl HeaderLoader {
    pub closed spec fn wf(&self) -> bool {
        match self.files {
            Some(t) => t.wf(),
            None => true,
        }
    }

    pub closed spec fn model(&self) -> LoadModel {
        LoadModel {
            files: match self.files {
                Some(t) => Some(t.map()),
                None => None,
            },
            root: self.root_path@,
        }
    }

    /// A loader that has met no chunk yet.
    pub fn new() -> (r: HeaderLoader)
        ensures
            r.wf(),
            r.model() == initial_load(),
    {
        HeaderLoader { files: None, root_path: String::new() }
    }

    /// The header of the archive at `archive_path`, once every chunk was
    /// met: `None` where no file-table chunk was among them.
    pub fn finish(self, archive_path: String) -> (r: Option<ArchiveHeader>)
        requires
            self.wf(),
        ensures
            self.model().files is None <==> r is None,
            r matches Some(h) ==> h.archive_path == archive_path && h.output_root_path@
                == self.model().root && names_unique(h.files@) && table_map(h.files@)
                == self.model().files->0 && h.files@.len() == self.model().files->0.dom().len(),
    {
        match self.files {
            Some(files) => {
                let files = files.into_entries();
                proof {
                    lemma_table_map_len(files@);
                }
                Some(
                    ArchiveHeader { archive_path, output_root_path: self.root_path, files },
                )
            },
            None => None,
        }
    }
}

impl ArchiveReader {
    pub fn new(encoding: &'static encoding_rs::Encoding) -> (r: ArchiveReader)
        ensures
            r.encoding == encoding,
    {
        ArchiveReader { encoding }
    }

    /// Takes in the chunk with header `h` whose stored payload is `payload`;
    /// for a chunk the loader skips, `payload` is not looked at.
    pub fn load_chunk(&self, loader: &mut HeaderLoader, h: &ChunkHeader, payload: &[u8]) -> (r:
        Result<(), ArchiveError>)
        requires
            old(loader).wf(),
        ensures
            final(loader).wf(),
            match step_chunk(*self.encoding, old(loader).model(), *h, payload@) {
                Ok(st) => r is Ok && final(loader).model() == st,
                Err(e) => r == Err::<(), ArchiveError>(e),
            },
    {
        reveal(step_chunk);
        if !wants_payload(h) {
            return Ok(());
        }
        let data = match read_chunk_data(h.compressed, payload) {
            Ok(d) => d,
            Err(e) => return Err(e),
        };
        if h.id == FILE_TABLE_CHUNK || h.id == FILE_TABLE_CHUNK_ALT {
            let mut table = match loader.files.take() {
                Some(t) => t,
                None => FileTable::new(),
            };
            let res = add_file_descriptors(&mut table, data.as_slice(), self.encoding);
            loader.files = Some(table);
            match res {
                Ok(()) => Ok(()),
                Err(e) => Err(ArchiveError::FileTable(e)),
            }
        } else {
            match read_root_path(data.as_slice(), self.encoding) {
                Ok(Some(p)) => {
                    loader.root_path = p;
                    Ok(())
                },
                Ok(None) => Ok(()),
                Err(e) => Err(ArchiveError::Metadata(e)),
            }
        }
    }

    /// Reads the header of the archive at `archive_path` from its bytes:
    /// `None` where the archive holds no file-table chunk.
    #[verifier::spinoff_prover]
    pub fn read_archive_header(&self, archive_path: String, data: &[u8]) -> (r: Result<
        Option<ArchiveHeader>,
        ArchiveError,
    >)
        ensures
            match load_chunks(*self.encoding, data@, initial_load()) {
                Ok(st) => r is Ok && (st.files is None <==> r->Ok_0 is None) && match r->Ok_0 {
                    Some(h) => h.archive_path == archive_path && h.output_root_path@ == st.root
                        && names_unique(h.files@) && table_map(h.files@) == st.files->0
                        && h.files@.len() == st.files->0.dom().len(),
                    None => true,
                },
                Err(e) => r == Err::<Option<ArchiveHeader>, ArchiveError>(e),
            },
    {
        let mut loader = HeaderLoader::new();
        let mut pos: usize = 0;
        assert(data@.subrange(0, data@.len() as int) =~= data@);
        while pos < data.len()
            invariant
                pos <= data@.len(),
                loader.wf(),
                load_chunks(*self.encoding, data@, initial_load()) == load_chunks(
                    *self.encoding,
                    data@.subrange(pos as int, data@.len() as int),
                    loader.model(),
                ),
            decreases data@.len() - pos,
        {
            let ghost rest = data@.subrange(pos as int, data@.len() as int);
            if data.len() - pos < CHUNK_HEADER_LEN {
                return Err(ArchiveError::TruncatedChunk);
            }
            let h = read_chunk_header(&data[pos..pos + CHUNK_HEADER_LEN]);
            assert(h == header_at(rest)) by {
                assert(data@.subrange(pos as int, pos + CHUNK_HEADER_LEN) =~= rest.subrange(0, 8));
            }
            if data.len() - pos - CHUNK_HEADER_LEN < h.len as usize {
                return Err(ArchiveError::TruncatedChunk);
            }
            let start = pos + CHUNK_HEADER_LEN;
            let end = start + h.len as usize;
            assert(data@.subrange(start as int, end as int) =~= rest.subrange(8, 8 + h.len));
            match self.load_chunk(&mut loader, &h, &data[start..end]) {
                Ok(()) => {},
                Err(e) => return Err(e),
            }
            assert(data@.subrange(end as int, data@.len() as int) =~= rest.subrange(
                8 + h.len,
                rest.len() as int,
            ));
            pos = end;
        }
        Ok(loader.finish(archive_path))
    }
}

/// The records of the file-table chunks of `b`, in order, as far as they
/// can be read.
pub open spec fn archive_records(b: Seq<u8>) -> Seq<RecordModel>
    decreases b.len(),
{
    if b.len() < CHUNK_HEADER_LEN {
        Seq::empty()
    } else {
        let h = header_at(b);
        let end = CHUNK_HEADER_LEN + h.len;
        if b.len() < end {
            Seq::empty()
        } else {
            let rest = archive_records(b.subrange(end, b.len() as int));
            if is_file_table_chunk(h.id) {
                match chunk_data(h.compressed, b.subrange(CHUNK_HEADER_LEN as int, end)) {
                    Ok(d) => match parse_records(d) {
                        Ok(rs) => rs + rest,
                        Err(_) => rest,
                    },
                    Err(_) => rest,
                }
            } else {
                rest
            }
        }
    }
}

/// Whether `b` holds a whole file-table chunk.
pub open spec fn has_table_chunk(b: Seq<u8>) -> bool
    decreases b.len(),
{
    if b.len() < CHUNK_HEADER_LEN {
        false
    } else {
        let h = header_at(b);
        let end = CHUNK_HEADER_LEN + h.len;
        if b.len() < end {
            false
        } else {
            is_file_table_chunk(h.id) || has_table_chunk(b.subrange(end, b.len() as int))
        }
    }
}

proof fn lemma_load_table_presence(encoding: encoding_rs::Encoding, b: Seq<u8>, st: LoadModel)
    requires
        load_chunks(encoding, b, st) is Ok,
    ensures
        load_chunks(encoding, b, st)->Ok_0.files is Some <==> (st.files is Some || has_table_chunk(b)),
    decreases b.len(),
{
    reveal(step_chunk);
    if b.len() > 0 {
        let h = header_at(b);
        let end = CHUNK_HEADER_LEN + h.len;
        let next = step_chunk(encoding, st, h, b.subrange(CHUNK_HEADER_LEN as int, end))->Ok_0;
        lemma_load_table_presence(encoding, b.subrange(end, b.len() as int), next);
    }
}

/// The table a load state holds, empty before any file-table chunk.
pub open spec fn files_of(st: LoadModel) -> Map<Seq<char>, DescriptorModel> {
    match st.files {
        Some(m) => m,
        None => Map::empty(),
    }
}

proof fn lemma_load_count(encoding: encoding_rs::Encoding, b: Seq<u8>, st: LoadModel)
    requires
        load_chunks(encoding, b, st) is Ok,
        files_of(st).dom().finite(),
        decoded_names_distinct(encoding, archive_records(b)),
        forall|n: Seq<char>|
            names_record(encoding, archive_records(b), n) ==> !files_of(st).dom().contains(n),
    ensures
        ({
            let end = load_chunks(encoding, b, st)->Ok_0;
            &&& files_of(end).dom().finite()
            &&& files_of(end).dom().len() == files_of(st).dom().len() + archive_records(b).len()
            &&& st.files is Some ==> end.files is Some
            &&& end.files is None ==> archive_records(b).len() == 0
        }),
    decreases b.len(),
{
    reveal(step_chunk);
    if b.len() > 0 {
        let h = header_at(b);
        let end = CHUNK_HEADER_LEN + h.len;
        let tail = b.subrange(end, b.len() as int);
        let payload = b.subrange(CHUNK_HEADER_LEN as int, end);
        let rest = archive_records(tail);
        let next = step_chunk(encoding, st, h, payload)->Ok_0;
        if is_file_table_chunk(h.id) {
            let d = chunk_data(h.compressed, payload)->Ok_0;
            let rs = parse_records(d)->Ok_0;
            let all = rs + rest;
            assert(archive_records(b) == all);
            assert(decoded_names_distinct(encoding, rs)) by {
                assert forall|i: int, j: int| 0 <= i < j < rs.len() implies decoded_text(
                    encoding,
                    rs[i].name,
                ).0 != decoded_text(encoding, rs[j].name).0 by {
                    assert(all[i] == rs[i] && all[j] == rs[j]);
                }
            }
            assert forall|n: Seq<char>| names_record(encoding, rs, n) implies !files_of(
                st,
            ).dom().contains(n) by {
                let i = choose|i: int| 0 <= i < rs.len() && decoded_text(encoding, rs[i].name).0 == n;
                assert(all[i] == rs[i]);
                assert(names_record(encoding, all, n));
            }
            lemma_insert_records_count(encoding, rs, files_of(st));
            assert(decoded_names_distinct(encoding, rest)) by {
                assert forall|i: int, j: int| 0 <= i < j < rest.len() implies decoded_text(
                    encoding,
                    rest[i].name,
                ).0 != decoded_text(encoding, rest[j].name).0 by {
                    assert(all[rs.len() + i] == rest[i] && all[rs.len() + j] == rest[j]);
                }
            }
            assert forall|n: Seq<char>| names_record(encoding, rest, n) implies !files_of(
                next,
            ).dom().contains(n) by {
                let i = choose|i: int| 0 <= i < rest.len() && decoded_text(encoding, rest[i].name).0 == n;
                assert(all[rs.len() + i] == rest[i]);
                assert(names_record(encoding, all, n));
                if names_record(encoding, rs, n) {
                    let j = choose|j: int| 0 <= j < rs.len() && decoded_text(encoding, rs[j].name).0 == n;
                    assert(all[j] == rs[j]);
                }
            }
            lemma_load_count(encoding, tail, next);
        } else {
            assert(archive_records(b) == rest);
            assert(files_of(next) == files_of(st));
            lemma_load_count(encoding, tail, next);
        }
    }
}

/// A loaded archive has no table (`None`) exactly when it holds no
/// file-table chunk; and where the names of its file-table records are
/// distinct, its table holds one entry per record of all those chunks.
pub proof fn lemma_table_size(encoding: encoding_rs::Encoding, b: Seq<u8>)
    requires
        load_chunks(encoding, b, initial_load()) is Ok,
    ensures
        ({
            let st = load_chunks(encoding, b, initial_load())->Ok_0;
            &&& st.files is None <==> !has_table_chunk(b)
            &&& st.files is None ==> archive_records(b).len() == 0
            &&& decoded_names_distinct(encoding, archive_records(b)) && st.files is Some
                ==> st.files->0.dom().len() == archive_records(b).len()
        }),
{
    lemma_load_table_presence(encoding, b, initial_load());
    lemma_records_without_table(b);
    if decoded_names_distinct(encoding, archive_records(b)) {
        assert(files_of(initial_load()) == Map::<Seq<char>, DescriptorModel>::empty());
        lemma_load_count(encoding, b, initial_load());
    }
}

proof fn lemma_records_without_table(b: Seq<u8>)
    ensures
        !has_table_chunk(b) ==> archive_records(b).len() == 0,
    decreases b.len(),
{
    if b.len() >= CHUNK_HEADER_LEN {
        let h = header_at(b);
        let end = CHUNK_HEADER_LEN + h.len;
        if b.len() >= end {
            lemma_records_without_table(b.subrange(end, b.len() as int));
        }
    }
}

} // verus!
