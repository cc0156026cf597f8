use db_unpacker::chunk::ArchiveHeader;
use db_unpacker::file_table::FileDescriptor;
use db_unpacker::layout::{directories, entry_path, path_components};
use db_unpacker::merge::merge_headers;
use std::collections::BTreeSet;

fn desc(name: &str, real_size: u32) -> FileDescriptor {
    FileDescriptor { name: name.to_string(), offset: 0, real_size, compressed_size: real_size, crc: 0 }
}

fn header(root: &str, files: Vec<FileDescriptor>) -> ArchiveHeader {
    ArchiveHeader { archive_path: "a.db".to_string(), output_root_path: root.to_string(), files }
}

fn dir_set(dirs: &[String]) -> BTreeSet<String> {
    dirs.iter().cloned().collect()
}

#[test]
fn directories_of_file_and_placeholder() {
    let t = merge_headers(&vec![Some(header("", vec![desc("a/b/c.txt", 5), desc("a/b/", 0)]))]);
    let dirs = directories(&t);
    assert_eq!(dirs.len(), 3, "each directory listed once: {:?}", dirs);
    let expected: BTreeSet<String> = ["", "a", "a/b"].iter().map(|s| s.to_string()).collect();
    assert_eq!(dir_set(&dirs), expected);
}

#[test]
fn directories_under_an_install_root() {
    let t = merge_headers(&vec![Some(header("root", vec![desc("x/y/z.bin", 1), desc("x/w/", 0)]))]);
    let dirs = directories(&t);
    let expected: BTreeSet<String> =
        ["", "root", "root/x", "root/x/y", "root/x/w"].iter().map(|s| s.to_string()).collect();
    assert_eq!(dir_set(&dirs), expected);
    assert_eq!(dirs.len(), expected.len());
}

#[test]
fn file_at_top_needs_only_the_root() {
    let t = merge_headers(&vec![Some(header("", vec![desc("top.txt", 1)]))]);
    assert_eq!(directories(&t), vec!["".to_string()]);
}

#[test]
fn no_entries_no_directories() {
    let t = merge_headers(&vec![]);
    assert!(directories(&t).is_empty());
}

#[test]
fn components_drop_empty_pieces() {
    let c = path_components(&"//a//b/".to_string());
    assert_eq!(c, vec!["a".to_string(), "b".to_string()]);
    assert!(path_components(&"".to_string()).is_empty());
    assert_eq!(path_components(&"x".to_string()), vec!["x".to_string()]);
}

#[test]
fn entry_path_joins_root_and_name() {
    assert_eq!(entry_path(&"data".to_string(), &"x/y.txt".to_string()), "data/x/y.txt");
    assert_eq!(entry_path(&"".to_string(), &"y.txt".to_string()), "y.txt");
    assert_eq!(entry_path(&"a/".to_string(), &"/b".to_string()), "a/b");
}
