use tinyweb::byteutil::{split_bytes, split_once_bytes};
use tinyweb::dict::Table;
use tinyweb::file::UploadedFile;
use tinyweb::router::strip_braces;
use tinyweb::session::NoSession;
use tinyweb::strutil::{cleanup_path, parse_u64, to_dec_string, trim_char};

#[test]
fn cleanup_path_trims_slashes() {
    assert_eq!(cleanup_path("/a/b/"), "a/b");
    assert_eq!(cleanup_path("///"), "");
    assert_eq!(cleanup_path("plain"), "plain");
}

#[test]
fn strip_braces_unwraps_placeholders() {
    assert_eq!(strip_braces("{id}"), "id");
    assert_eq!(strip_braces("id"), "id");
    assert_eq!(strip_braces("{id"), "{id");
}

#[test]
fn trim_char_removes_both_ends() {
    assert_eq!(trim_char("  x ", ' '), "x");
    assert_eq!(trim_char("xx", 'x'), "");
}

#[test]
fn decimal_parsing_and_rendering() {
    assert_eq!(parse_u64("0"), Some(0));
    assert_eq!(parse_u64("1234"), Some(1234));
    assert_eq!(parse_u64("18446744073709551615"), Some(u64::MAX));
    assert_eq!(parse_u64("18446744073709551616"), None);
    assert_eq!(parse_u64(""), None);
    assert_eq!(parse_u64("12a"), None);
    assert_eq!(to_dec_string(0), "0");
    assert_eq!(to_dec_string(42), "42");
    assert_eq!(to_dec_string(u64::MAX), "18446744073709551615");
}

#[test]
fn byte_splitting_matches_first_occurrences() {
    let parts = split_bytes(b"a--b--c", b"--");
    assert_eq!(parts, vec![b"a".to_vec(), b"b".to_vec(), b"c".to_vec()]);
    let parts = split_bytes(b"nodelim", b"--");
    assert_eq!(parts, vec![b"nodelim".to_vec()]);
    let (before, after) = split_once_bytes(b"head\r\n\r\nbody", b"\r\n\r\n").unwrap();
    assert_eq!(before, b"head".to_vec());
    assert_eq!(after, b"body".to_vec());
    assert!(split_once_bytes(b"abc", b"xy").is_none());
    assert!(split_once_bytes(b"abc", b"").is_none());
}

#[test]
fn table_insert_overwrites_and_keeps_order() {
    let mut t = Table::new();
    t.insert(String::from("a"), String::from("1"));
    t.insert(String::from("b"), String::from("2"));
    t.insert(String::from("a"), String::from("3"));
    assert_eq!(t.count(), 2);
    assert_eq!(t.get("a").unwrap().as_str(), "3");
    let (k0, _) = t.pair_at(0);
    assert_eq!(k0.as_str(), "a");
    assert!(t.get("missing").is_none());
    assert!(t.contains_key("b"));
}

#[test]
fn uploader_plans_destination_paths() {
    let f = UploadedFile {
        filename: String::from("resume.pdf"),
        content_type: Some(String::from("application/pdf")),
        content: vec![1, 2, 3],
        extension: String::from("pdf"),
        size: 3,
    };
    let p = f.uploader().destination_path("1700000000");
    assert_eq!(p, "src/storage/uploads/1700000000.pdf");
    let p = f.uploader().with_filename(String::from("cv")).with_path(String::from("store"))
        .destination_path("fallback");
    assert_eq!(p, "store/cv.pdf");
    let _ = NoSession::new();
}
