use db_unpacker::chunk::ArchiveHeader;
use db_unpacker::file_table::FileDescriptor;
use db_unpacker::merge::{merge_headers, MergedTable};

fn desc(name: &str, real_size: u32, offset: u32) -> FileDescriptor {
    FileDescriptor { name: name.to_string(), offset, real_size, compressed_size: real_size, crc: 0 }
}

fn header(path: &str, root: &str, files: Vec<FileDescriptor>) -> ArchiveHeader {
    ArchiveHeader { archive_path: path.to_string(), output_root_path: root.to_string(), files }
}

fn entry<'a>(t: &'a MergedTable, name: &str) -> (usize, &'a FileDescriptor) {
    let d = t.descriptors().iter().find(|d| d.name == name).unwrap();
    (t.owner(&d.name).unwrap(), d)
}

#[test]
fn later_archive_overrides_earlier() {
    let a = header("A.db", "ra", vec![desc("x", 1, 10), desc("only_a", 1, 11)]);
    let b = header("B.db", "rb", vec![desc("x", 2, 20)]);
    let t = merge_headers(&vec![Some(a.clone()), Some(b.clone())]);
    let (k, d) = entry(&t, "x");
    assert_eq!(t.archives()[k].archive_path, "B.db");
    assert_eq!(t.archives()[k].output_root_path, "rb");
    assert_eq!(d.offset, 20);
    assert_eq!(d.real_size, 2);
    assert_eq!(t.descriptors().len(), 2);

    let t = merge_headers(&vec![Some(b), Some(a)]);
    let (k, d) = entry(&t, "x");
    assert_eq!(t.archives()[k].archive_path, "A.db");
    assert_eq!(d.offset, 10);
}

#[test]
fn overrides_are_recorded() {
    let a = header("A.db", "", vec![desc("x", 1, 10), desc("y", 1, 11)]);
    let b = header("B.db", "", vec![desc("y", 2, 20), desc("z", 2, 21)]);
    let t = merge_headers(&vec![Some(a), Some(b)]);
    let ov = t.overrides();
    assert_eq!(ov.len(), 1);
    assert_eq!(ov[0].name, "y");
    assert_eq!(ov[0].previous_archive, 0);
    assert_eq!(ov[0].archive, 1);
}

#[test]
fn archives_without_table_contribute_nothing() {
    let a = header("A.db", "", vec![desc("x", 1, 10)]);
    let t = merge_headers(&vec![None, Some(a), None]);
    assert_eq!(t.archives().len(), 1);
    assert_eq!(t.archives()[0].archive_path, "A.db");
    let (k, _) = entry(&t, "x");
    assert_eq!(k, 0);
}

#[test]
fn empty_input_gives_empty_table() {
    let t = merge_headers(&vec![]);
    assert!(t.descriptors().is_empty());
    assert!(t.archives().is_empty());
    assert!(t.overrides().is_empty());
}

#[test]
fn add_archive_step_by_step() {
    let mut t = MergedTable::new();
    t.add_archive(&header("A.db", "", vec![desc("x", 1, 1)]));
    t.add_archive(&header("B.db", "", vec![desc("x", 1, 2)]));
    t.add_archive(&header("C.db", "", vec![desc("x", 1, 3)]));
    let (k, d) = entry(&t, "x");
    assert_eq!(k, 2);
    assert_eq!(d.offset, 3);
    assert_eq!(t.overrides().len(), 2);
}
