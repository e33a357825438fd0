use crates_scanner::paths::{
    copy_range, ends_with, file_name_start, join, same_bytes, starts_with, SEPARATOR,
};

#[test]
fn separator_is_the_slash() {
    assert_eq!(SEPARATOR, b'/');
}

#[test]
fn ends_with_tells_a_suffix() {
    assert!(ends_with(b"foo-1.0.0.crate", b".crate"));
    assert!(ends_with(b".crate", b".crate"));
    assert!(ends_with(b"anything", b""));
    assert!(!ends_with(b"crate", b".crate"));
    assert!(!ends_with(b"foo.crate.bak", b".crate"));
    assert!(!ends_with(b"", b"x"));
}

#[test]
fn starts_with_tells_a_prefix() {
    assert!(starts_with(b"foo-1.0.0.crate", b"foo-"));
    assert!(starts_with(b"foo", b"foo"));
    assert!(starts_with(b"foo", b""));
    assert!(!starts_with(b"fo", b"foo"));
    assert!(!starts_with(b"bar-1.0.0", b"foo"));
}

#[test]
fn same_bytes_compares_whole_strings() {
    assert!(same_bytes(b"serde", b"serde"));
    assert!(same_bytes(b"", b""));
    assert!(!same_bytes(b"serde", b"serde_json"));
    assert!(!same_bytes(b"serde_json", b"serde"));
    assert!(!same_bytes(b"serde", b"serdf"));
}

#[test]
fn copy_range_copies_the_span() {
    assert_eq!(copy_range(b"foo-1.2.3.crate", 4, 9), b"1.2.3".to_vec());
    assert_eq!(copy_range(b"abc", 0, 3), b"abc".to_vec());
    assert_eq!(copy_range(b"abc", 2, 2), Vec::<u8>::new());
}

#[test]
fn file_name_starts_behind_the_last_separator() {
    assert_eq!(file_name_start(b"root/foo/foo-1.0.0.crate"), 9);
    assert_eq!(file_name_start(b"foo-1.0.0.crate"), 0);
    assert_eq!(file_name_start(b"root/foo/"), 9);
    assert_eq!(file_name_start(b"/x"), 1);
    assert_eq!(file_name_start(b""), 0);
}

#[test]
fn join_appends_a_component() {
    assert_eq!(join(b"root", b"foo"), b"root/foo".to_vec());
    assert_eq!(join(b"root/", b"foo"), b"root/foo".to_vec());
    assert_eq!(join(b"root", b"foo/bar.rs"), b"root/foo/bar.rs".to_vec());
}

#[test]
fn join_with_an_empty_directory_gives_the_name() {
    assert_eq!(join(b"", b"foo"), b"foo".to_vec());
}

#[test]
fn join_with_a_rooted_name_gives_the_name() {
    assert_eq!(join(b"root", b"/etc/passwd"), b"/etc/passwd".to_vec());
}

#[test]
fn join_with_an_empty_name_ends_in_a_separator() {
    assert_eq!(join(b"root", b""), b"root/".to_vec());
}
