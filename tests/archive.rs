use db_unpacker::chunk::{
    read_chunk_data, read_chunk_header, wants_payload, ArchiveError, ArchiveReader, HeaderLoader,
};
use db_unpacker::file_table::FileTableError;
use db_unpacker::metadata::MetadataError;

fn record(name: &[u8], real_size: u32, compressed_size: u32, crc: u32, offset: u32) -> Vec<u8> {
    let mut out = Vec::new();
    out.extend_from_slice(&((name.len() + 16) as u16).to_le_bytes());
    out.extend_from_slice(&real_size.to_le_bytes());
    out.extend_from_slice(&compressed_size.to_le_bytes());
    out.extend_from_slice(&crc.to_le_bytes());
    out.extend_from_slice(name);
    out.extend_from_slice(&offset.to_le_bytes());
    out
}

fn chunk(id: u32, payload: &[u8]) -> Vec<u8> {
    let mut out = Vec::new();
    out.extend_from_slice(&id.to_le_bytes());
    out.extend_from_slice(&(payload.len() as u32).to_le_bytes());
    out.extend_from_slice(payload);
    out
}

fn reader() -> ArchiveReader {
    ArchiveReader::new(encoding_rs::UTF_8)
}

#[test]
fn table_and_metadata_give_a_header() {
    let mut data = chunk(666, b"[header]\nentry_point = $root$\\base\n");
    data.extend(chunk(0x1, &record(b"a.txt", 3, 3, 0, 100)));
    let h = reader().read_archive_header("x.db".to_string(), &data).unwrap().unwrap();
    assert_eq!(h.archive_path, "x.db");
    assert_eq!(h.output_root_path, "base");
    assert_eq!(h.files.len(), 1);
    assert_eq!(h.files[0].name, "a.txt");
}

#[test]
fn alternate_chunk_ids_are_recognised() {
    let mut data = chunk(0x86, &record(b"a", 1, 1, 0, 0));
    data.extend(chunk(1337, b"[header]\nentry_point = r\n"));
    let h = reader().read_archive_header("y".to_string(), &data).unwrap().unwrap();
    assert_eq!(h.output_root_path, "r");
    assert_eq!(h.files.len(), 1);
}

#[test]
fn archive_without_table_gives_none() {
    let data = chunk(666, b"[header]\nentry_point = r\n");
    assert!(reader().read_archive_header("z".to_string(), &data).unwrap().is_none());
    assert!(reader().read_archive_header("e".to_string(), &[]).unwrap().is_none());
}

#[test]
fn empty_table_chunk_gives_empty_table() {
    let data = chunk(1, &[]);
    let h = reader().read_archive_header("z".to_string(), &data).unwrap().unwrap();
    assert!(h.files.is_empty());
    assert_eq!(h.output_root_path, "");
}

#[test]
fn root_defaults_to_empty() {
    let data = chunk(1, &record(b"f", 1, 1, 0, 0));
    let h = reader().read_archive_header("z".to_string(), &data).unwrap().unwrap();
    assert_eq!(h.output_root_path, "");
}

#[test]
fn metadata_without_entry_point_keeps_root() {
    let mut data = chunk(666, b"[header]\nentry_point = first\n");
    data.extend(chunk(666, b"[header]\nname = x\n"));
    data.extend(chunk(1, &record(b"f", 1, 1, 0, 0)));
    let h = reader().read_archive_header("z".to_string(), &data).unwrap().unwrap();
    assert_eq!(h.output_root_path, "first");
}

#[test]
fn unknown_chunks_are_skipped() {
    let mut data = chunk(7, &[1, 2, 3, 4, 5]);
    data.extend(chunk(0x8000_0009, &[0xff; 3]));
    data.extend(chunk(1, &record(b"f", 1, 1, 0, 0)));
    data.extend(chunk(42, &[]));
    let h = reader().read_archive_header("z".to_string(), &data).unwrap().unwrap();
    assert_eq!(h.files.len(), 1);
}

#[test]
fn table_size_counts_records_of_every_table_chunk() {
    let mut first = record(b"a", 1, 1, 0, 0);
    first.extend(record(b"b", 1, 1, 0, 0));
    let mut data = chunk(1, &first);
    data.extend(chunk(5, &[0; 4]));
    data.extend(chunk(0x86, &record(b"c", 1, 1, 0, 0)));
    let h = reader().read_archive_header("z".to_string(), &data).unwrap().unwrap();
    assert_eq!(h.files.len(), 3);
}

#[test]
fn truncated_chunk_header_is_rejected() {
    let mut data = chunk(1, &record(b"f", 1, 1, 0, 0));
    data.extend_from_slice(&[1, 0, 0]);
    let r = reader().read_archive_header("z".to_string(), &data);
    assert_eq!(r.unwrap_err(), ArchiveError::TruncatedChunk);
}

#[test]
fn truncated_chunk_payload_is_rejected() {
    let data = chunk(1, &record(b"f", 1, 1, 0, 0));
    let r = reader().read_archive_header("z".to_string(), &data[..data.len() - 1]);
    assert_eq!(r.unwrap_err(), ArchiveError::TruncatedChunk);
    let skipped = chunk(9, &[0; 10]);
    let r = reader().read_archive_header("z".to_string(), &skipped[..12]);
    assert_eq!(r.unwrap_err(), ArchiveError::TruncatedChunk);
}

#[test]
fn compressed_chunk_shorter_than_its_prefix_is_rejected() {
    let data = chunk(0x8000_0001, &[1, 2]);
    let r = reader().read_archive_header("z".to_string(), &data);
    assert_eq!(r.unwrap_err(), ArchiveError::BadChunkLength);
}

#[test]
fn compressed_chunk_that_does_not_decode_is_rejected() {
    let mut payload = 4096u32.to_le_bytes().to_vec();
    payload.push(0);
    let data = chunk(0x8000_0001, &payload);
    let r = reader().read_archive_header("z".to_string(), &data);
    assert_eq!(r.unwrap_err(), ArchiveError::Decompression);
}

#[test]
fn compressed_chunk_of_zero_length_decodes_to_nothing() {
    let data = chunk(0x8000_0001, &0u32.to_le_bytes());
    let h = reader().read_archive_header("z".to_string(), &data).unwrap().unwrap();
    assert!(h.files.is_empty());
}

#[test]
fn bad_table_aborts_the_archive() {
    let data = chunk(1, &[1, 2, 3]);
    let r = reader().read_archive_header("z".to_string(), &data);
    assert_eq!(r.unwrap_err(), ArchiveError::FileTable(FileTableError::Truncated));
}

#[test]
fn bad_metadata_aborts_the_archive() {
    let data = chunk(666, &[0xff, 0xfe]);
    let r = reader().read_archive_header("z".to_string(), &data);
    assert_eq!(r.unwrap_err(), ArchiveError::Metadata(MetadataError::BadText));
}

#[test]
fn chunk_header_fields() {
    let h = read_chunk_header(&[0x86, 0, 0, 0x80, 10, 1, 0, 0]);
    assert_eq!(h.id, 0x86);
    assert!(h.compressed);
    assert_eq!(h.len, 266);
    assert!(wants_payload(&h));
    let other = read_chunk_header(&[3, 0, 0, 0, 0, 0, 0, 0]);
    assert!(!other.compressed);
    assert!(!wants_payload(&other));
}

#[test]
fn stored_chunk_data_is_the_payload() {
    assert_eq!(read_chunk_data(false, &[1, 2, 3]).unwrap(), vec![1, 2, 3]);
}

#[test]
fn streaming_loader_matches_in_memory_reader() {
    let mut data = chunk(666, b"[header]\nentry_point = $r$\\root\n");
    data.extend(chunk(77, &[9; 6]));
    data.extend(chunk(1, &record(b"one", 1, 1, 0, 0)));
    let r = reader();
    let mut loader = HeaderLoader::new();
    let mut pos = 0;
    while pos < data.len() {
        let h = read_chunk_header(&data[pos..pos + 8]);
        let start = pos + 8;
        let end = start + h.len as usize;
        r.load_chunk(&mut loader, &h, &data[start..end]).unwrap();
        pos = end;
    }
    let streamed = loader.finish("s".to_string()).unwrap();
    let whole = r.read_archive_header("s".to_string(), &data).unwrap().unwrap();
    assert_eq!(streamed.output_root_path, whole.output_root_path);
    assert_eq!(streamed.files.len(), whole.files.len());
    assert_eq!(streamed.files[0].name, whole.files[0].name);
}

#[test]
fn compressed_chunk_decodes_to_its_declared_length() {
    let mut payload = 16u32.to_le_bytes().to_vec();
    payload.extend_from_slice(&[0u8; 64]);
    let data = read_chunk_data(true, &payload).unwrap();
    assert_eq!(data.len(), 16);
    assert_ne!(data.as_slice(), &payload[4..]);
}
