use dedup::paths::{extension, file_name, join, path_components, same_path, strip_prefix};
use dedup::text::{
    contains, lines_with_ends, push_dec, push_dec_int, push_hex, push_padded, split, text_between,
    to_lower,
};

#[test]
fn paths_are_read_like_the_system_reads_them() {
    assert_eq!(path_components("/a/./b//c/"), vec!["a", "b", "c"]);
    assert_eq!(file_name("/a/b.rs").as_deref(), Some("b.rs"));
    assert_eq!(file_name("/a/..").as_deref(), None);
    assert_eq!(extension("x.tar.gz").as_deref(), Some("gz"));
    assert_eq!(extension(".bashrc").as_deref(), None);
    assert_eq!(extension("a/b").as_deref(), None);
}

#[test]
fn paths_are_joined() {
    assert_eq!(join("/a", "b"), "/a/b");
    assert_eq!(join("/a/", "b"), "/a/b");
    assert_eq!(join("/a", "/b"), "/b");
    assert_eq!(join("", "b"), "b");
}

#[test]
fn prefixes_are_whole_components() {
    assert_eq!(strip_prefix("/a/b/c", "/a").as_deref(), Some("b/c"));
    assert_eq!(strip_prefix("/a/b", "/a/b").as_deref(), Some(""));
    assert_eq!(strip_prefix("/ab", "/a"), None);
    assert!(same_path("/a/b", "/a//b/"));
    assert!(!same_path("/a", "a"));
}

#[test]
fn numbers_are_written() {
    let mut out = String::new();
    push_dec(&mut out, 0);
    out.push(' ');
    push_dec(&mut out, 12_345);
    out.push(' ');
    push_dec_int(&mut out, i64::MIN);
    out.push(' ');
    push_padded(&mut out, 7, 4);
    out.push(' ');
    push_hex(&mut out, 0xbeef, 8);
    assert_eq!(out, "0 12345 -9223372036854775808 0007 0000beef");
}

#[test]
fn texts_are_searched_and_split() {
    assert!(contains("abcabd", "abd"));
    assert!(!contains("abc", "abcd"));
    assert!(contains("", ""));
    assert_eq!(to_lower("CaRGo"), "cargo");
    assert_eq!(split("a.b..c", '.'), vec!["a", "b", "", "c"]);
    assert_eq!(lines_with_ends("a\nb"), vec!["a\n", "b"]);
}

#[test]
fn bytes_that_cut_a_character_are_no_text() {
    let bytes = "aé".as_bytes();
    assert_eq!(text_between(bytes, 0, 3), Some("aé"));
    assert_eq!(text_between(bytes, 0, 2), None);
    assert_eq!(text_between(bytes, 2, 9), None);
}
