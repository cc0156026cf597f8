use db_unpacker::metadata::{read_root_path, MetadataError};

fn root(text: &str) -> Option<String> {
    read_root_path(text.as_bytes(), encoding_rs::UTF_8).unwrap()
}

#[test]
fn entry_point_with_alias_token_gives_root() {
    let text = "[header]\nentry_point = $root$\\data\\maps\n";
    assert_eq!(root(text), Some("data\\maps".to_string()));
}

#[test]
fn entry_point_without_alias_is_kept_whole() {
    assert_eq!(root("[header]\nentry_point = game/data\n"), Some("game/data".to_string()));
}

#[test]
fn value_is_trimmed() {
    assert_eq!(root("[header]\n  entry_point   =   $x$\\dir  \t\n"), Some("dir".to_string()));
}

#[test]
fn crlf_line_endings() {
    assert_eq!(root("[header]\r\nentry_point = $a$\\b\r\n"), Some("b".to_string()));
}

#[test]
fn section_header_may_have_a_prefix() {
    assert_eq!(root("junk [header]\nentry_point = p\n"), Some("p".to_string()));
}

#[test]
fn first_entry_point_wins() {
    assert_eq!(root("[header]\nentry_point = one\nentry_point = two\n"), Some("one".to_string()));
}

#[test]
fn other_keys_are_ignored() {
    assert_eq!(root("[header]\nversion = 3\nentry_point = r\n"), Some("r".to_string()));
}

#[test]
fn entry_point_outside_header_is_ignored() {
    assert_eq!(root("[other]\nentry_point = x\n"), None);
    assert_eq!(root("entry_point = x\n[header]\n"), None);
}

#[test]
fn later_section_closes_header() {
    assert_eq!(root("[header]\n[files]\nentry_point = x\n"), None);
}

#[test]
fn no_header_gives_none() {
    assert_eq!(root(""), None);
    assert_eq!(root("just text\n"), None);
}

#[test]
fn alias_token_needs_its_backslash() {
    assert_eq!(root("[header]\nentry_point = $root$data\n"), Some("$root$data".to_string()));
    assert_eq!(root("[header]\nentry_point = $$\\data\n"), Some("$$\\data".to_string()));
}

#[test]
fn last_line_without_newline() {
    assert_eq!(root("[header]\nentry_point = last"), Some("last".to_string()));
}

#[test]
fn empty_value_is_no_key_value() {
    assert_eq!(root("[header]\nentry_point =   \nentry_point = y\n"), Some("y".to_string()));
}

#[test]
fn non_ascii_names_and_values() {
    assert_eq!(root("[header]\nentry_point = $диск$\\папка\n"), Some("папка".to_string()));
}

#[test]
fn undecodable_text_is_rejected() {
    let r = read_root_path(&[b'[', 0xff, b']'], encoding_rs::UTF_8);
    assert_eq!(r.unwrap_err(), MetadataError::BadText);
}

#[test]
fn unicode_white_space_is_trimmed() {
    assert_eq!(root("[header]\n\u{3000}entry_point\u{a0}=\u{3000}x\u{3000}\n"), Some("x".to_string()));
}
