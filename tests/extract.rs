use db_unpacker::chunk::ArchiveHeader;
use db_unpacker::extract::{
    check_crc, copy_buffer_len, extraction_tasks, unpack_compressed, ExtractError, StoredCopy,
    COPY_CHUNK_LEN, EXTRACTION_CONCURRENCY,
};
use db_unpacker::file_table::FileDescriptor;
use db_unpacker::merge::merge_headers;

fn sample() -> Vec<u8> {
    let mut v = Vec::new();
    for i in 0..4000u32 {
        v.push((i % 7) as u8 + b'a');
    }
    v
}

fn compressed_entry(data: &[u8]) -> (FileDescriptor, Vec<u8>) {
    let mut lzo = minilzo_rs::LZO::init().unwrap();
    let packed = lzo.compress(data).unwrap();
    let d = FileDescriptor {
        name: "f".to_string(),
        offset: 0,
        real_size: data.len() as u32,
        compressed_size: packed.len() as u32,
        crc: crc32fast::hash(data),
    };
    (d, packed)
}

#[test]
fn compressed_entry_unpacks_and_matches_crc() {
    let data = sample();
    let (d, packed) = compressed_entry(&data);
    assert_ne!(packed, data);
    let lzo = minilzo_rs::LZO::init().unwrap();
    let out = unpack_compressed(&lzo, &d, &packed).unwrap();
    assert_eq!(out, data);
}

#[test]
fn unpacking_twice_gives_the_same_bytes() {
    let data = sample();
    let (d, packed) = compressed_entry(&data);
    let lzo = minilzo_rs::LZO::init().unwrap();
    let first = unpack_compressed(&lzo, &d, &packed).unwrap();
    let second = unpack_compressed(&lzo, &d, &packed).unwrap();
    assert_eq!(first, second);
}

#[test]
fn wrong_crc_is_rejected() {
    let data = sample();
    let (mut d, packed) = compressed_entry(&data);
    d.crc ^= 1;
    let lzo = minilzo_rs::LZO::init().unwrap();
    assert_eq!(unpack_compressed(&lzo, &d, &packed).unwrap_err(), ExtractError::CrcMismatch);
}

#[test]
fn corrupting_any_compressed_byte_fails_the_check() {
    let data = sample();
    let (d, packed) = compressed_entry(&data);
    let lzo = minilzo_rs::LZO::init().unwrap();
    for i in 0..packed.len() {
        let mut bad = packed.clone();
        bad[i] ^= 0x55;
        let r = unpack_compressed(&lzo, &d, &bad);
        assert!(r.is_err(), "corruption at byte {} went unnoticed", i);
    }
}

#[test]
fn garbage_does_not_decompress() {
    let d = FileDescriptor { name: "g".to_string(), offset: 0, real_size: 100, compressed_size: 3, crc: 0 };
    let lzo = minilzo_rs::LZO::init().unwrap();
    let r = unpack_compressed(&lzo, &d, &[0xff, 0xff, 0xff]);
    assert_eq!(r.unwrap_err(), ExtractError::Decompression);
}

#[test]
fn crc_check() {
    let d = FileDescriptor { name: "c".to_string(), offset: 0, real_size: 1, compressed_size: 2, crc: 77 };
    assert!(check_crc(&d, 77).is_ok());
    assert_eq!(check_crc(&d, 78).unwrap_err(), ExtractError::CrcMismatch);
}

#[test]
fn copy_buffer_is_bounded() {
    assert_eq!(COPY_CHUNK_LEN, 262144);
    assert_eq!(copy_buffer_len(10), 10);
    assert_eq!(copy_buffer_len(0), 0);
    assert_eq!(copy_buffer_len(262144), 262144);
    assert_eq!(copy_buffer_len(1 << 20), 262144);
    assert_eq!(EXTRACTION_CONCURRENCY, 64);
}

#[test]
fn stored_copy_progress() {
    let d = FileDescriptor { name: "s".to_string(), offset: 0, real_size: 300_000, compressed_size: 300_000, crc: 0 };
    let mut c = StoredCopy::new(&d);
    assert_eq!(c.remaining(), 300_000);
    assert_eq!(c.next_read_len(), 262144);
    c.record_read(262144).unwrap();
    assert_eq!(c.next_read_len(), 300_000 - 262144);
    c.record_read(1000).unwrap();
    assert!(!c.is_done());
    c.record_read(300_000 - 262144 - 1000).unwrap();
    assert!(c.is_done());
    assert_eq!(c.next_read_len(), 0);
}

#[test]
fn stored_copy_end_of_file_is_an_error() {
    let d = FileDescriptor { name: "s".to_string(), offset: 0, real_size: 10, compressed_size: 10, crc: 0 };
    let mut c = StoredCopy::new(&d);
    assert_eq!(c.record_read(0).unwrap_err(), ExtractError::UnexpectedEof);
    assert_eq!(c.remaining(), 10);
    assert_eq!(c.record_read(11).unwrap_err(), ExtractError::ReadTooLong);
}

#[test]
fn tasks_skip_directories_and_name_destinations() {
    let files = vec![
        FileDescriptor { name: "d/".to_string(), offset: 0, real_size: 0, compressed_size: 0, crc: 0 },
        FileDescriptor { name: "d/f.bin".to_string(), offset: 8, real_size: 4, compressed_size: 4, crc: 0 },
    ];
    let h = ArchiveHeader { archive_path: "p.db".to_string(), output_root_path: "base".to_string(), files };
    let t = merge_headers(&vec![Some(h)]);
    let tasks = extraction_tasks(&t);
    assert_eq!(tasks.len(), 1);
    assert_eq!(tasks[0].archive_path, "p.db");
    assert_eq!(tasks[0].destination, "base/d/f.bin");
    assert_eq!(tasks[0].descriptor.offset, 8);
}
