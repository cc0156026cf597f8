use db_unpacker::file_table::{
    encode_file_table, read_file_descriptors, read_records, FileTableError, RawRecord,
};

fn record(name: &[u8], real_size: u32, compressed_size: u32, crc: u32, offset: u32) -> Vec<u8> {
    let mut out = Vec::new();
    out.extend_from_slice(&((name.len() + 16) as u16).to_le_bytes());
    out.extend_from_slice(&real_size.to_le_bytes());
    out.extend_from_slice(&compressed_size.to_le_bytes());
    out.extend_from_slice(&crc.to_le_bytes());
    out.extend_from_slice(name);
    out.extend_from_slice(&offset.to_le_bytes());
    out
}

#[test]
fn decodes_one_record() {
    let data = record(b"maps/a.bin", 100, 40, 0xDEADBEEF, 4096);
    let table = read_file_descriptors(&data, encoding_rs::UTF_8).unwrap();
    assert_eq!(table.len(), 1);
    let d = &table[0];
    assert_eq!(d.name, "maps/a.bin");
    assert_eq!(d.real_size, 100);
    assert_eq!(d.compressed_size, 40);
    assert_eq!(d.crc, 0xDEADBEEF);
    assert_eq!(d.offset, 4096);
    assert!(d.is_compressed());
    assert!(!d.is_directory());
}

#[test]
fn empty_payload_gives_empty_table() {
    let table = read_file_descriptors(&[], encoding_rs::UTF_8).unwrap();
    assert!(table.is_empty());
}

#[test]
fn decodes_several_records_in_order() {
    let mut data = record(b"a.txt", 3, 3, 1, 10);
    data.extend(record(b"dir/", 0, 0, 0, 0));
    data.extend(record(b"b.txt", 5, 2, 7, 20));
    let table = read_file_descriptors(&data, encoding_rs::UTF_8).unwrap();
    let names: Vec<&str> = table.iter().map(|d| d.name.as_str()).collect();
    assert_eq!(names, vec!["a.txt", "dir/", "b.txt"]);
    assert!(table[1].is_directory());
    assert!(!table[0].is_compressed());
}

#[test]
fn name_of_520_bytes_is_accepted() {
    let name = vec![b'n'; 520];
    let data = record(&name, 1, 1, 0, 0);
    let table = read_file_descriptors(&data, encoding_rs::UTF_8).unwrap();
    assert_eq!(table.len(), 1);
    assert_eq!(table[0].name.len(), 520);
}

#[test]
fn name_of_521_bytes_is_rejected() {
    let name = vec![b'n'; 521];
    let data = record(&name, 1, 1, 0, 0);
    let r = read_file_descriptors(&data, encoding_rs::UTF_8);
    assert_eq!(r.unwrap_err(), FileTableError::NameTooLong);
}

#[test]
fn truncated_record_is_rejected() {
    let data = record(b"abc", 1, 1, 0, 0);
    for cut in 1..data.len() {
        let r = read_file_descriptors(&data[..cut], encoding_rs::UTF_8);
        assert_eq!(r.unwrap_err(), FileTableError::Truncated, "cut at {}", cut);
    }
}

#[test]
fn header_size_below_fixed_fields_is_rejected() {
    let mut data = record(b"abc", 1, 1, 0, 0);
    data[0] = 15;
    data[1] = 0;
    let r = read_file_descriptors(&data, encoding_rs::UTF_8);
    assert_eq!(r.unwrap_err(), FileTableError::BadHeaderSize);
}

#[test]
fn undecodable_name_is_rejected() {
    let data = record(&[0xff, 0xfe, b'a'], 1, 1, 0, 0);
    let r = read_file_descriptors(&data, encoding_rs::UTF_8);
    assert_eq!(r.unwrap_err(), FileTableError::BadName);
}

#[test]
fn names_decode_under_the_configured_encoding() {
    // "файл" in windows-1251
    let data = record(&[0xF4, 0xE0, 0xE9, 0xEB], 1, 1, 0, 0);
    let table = read_file_descriptors(&data, encoding_rs::WINDOWS_1251).unwrap();
    assert_eq!(table[0].name, "файл");
}

#[test]
fn duplicate_name_in_one_chunk_keeps_one_entry_the_last() {
    let mut data = record(b"same", 1, 1, 1, 100);
    data.extend(record(b"same", 2, 2, 2, 200));
    let table = read_file_descriptors(&data, encoding_rs::UTF_8).unwrap();
    assert_eq!(table.len(), 1, "a duplicated name must not yield two entries");
    assert_eq!(table[0].offset, 200);
    assert_eq!(table[0].real_size, 2);
}

#[test]
fn records_round_trip_through_the_encoder() {
    let mut data = record(b"first.bin", 10, 4, 0x1234_5678, 0);
    data.extend(record(b"", 0, 0, 0, 0));
    data.extend(record(&vec![b'x'; 520], 0xFFFF_FFFF, 1, 0xFFFF_FFFF, 0xFFFF_FFFF));
    let records = read_records(&data).unwrap();
    assert_eq!(records.len(), 3);
    assert_eq!(encode_file_table(&records), data);
}

#[test]
fn encoder_writes_the_record_layout() {
    let r = RawRecord { real_size: 1, compressed_size: 2, crc: 3, name: b"ab".to_vec(), offset: 4 };
    let bytes = encode_file_table(&vec![r]);
    assert_eq!(bytes, record(b"ab", 1, 2, 3, 4));
}
