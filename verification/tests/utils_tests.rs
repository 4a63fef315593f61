use redai::utils::{byte_to_point, is_ignored_dir, is_ignored_file, is_ignored_path, offset_to_byte};
use redai::error::Error;

#[test]
fn test_byte_to_point_ascii() {
    let text = "hello\nworld";
    assert_eq!(byte_to_point(6, text), (1, 0));
    assert_eq!(byte_to_point(8, text), (1, 2));
}

#[test]
fn test_byte_to_point_russian() {
    let text = "привет\nмир";
    assert_eq!(byte_to_point(13, text), (1, 0));
    assert_eq!(byte_to_point(15, text), (1, 1));
    assert_eq!(byte_to_point(6, text), (0, 3));
}

#[test]
fn test_is_ignored_dir() {
    let path = "src/node_modules/package";
    assert!(is_ignored_dir(path));

    let path = "src/main.rs";
    assert!(!is_ignored_dir(path));

    let path = ".git/config";
    assert!(is_ignored_dir(path));
}

#[test]
fn test_is_ignored_file() {
    assert!(is_ignored_file(".DS_Store"));
    assert!(is_ignored_file("package-lock.json"));
    assert!(is_ignored_file("app.log"));
    assert!(is_ignored_file("data.db"));
    assert!(is_ignored_file("temp.tmp"));

    assert!(!is_ignored_file("main.rs"));
    assert!(!is_ignored_file("index.html"));
    assert!(!is_ignored_file("config.json"));
}

#[test]
fn test_is_ignored_path() {
    let path = "src/node_modules/package.json";
    assert!(is_ignored_path(path));

    let path = "src/.DS_Store";
    assert!(is_ignored_path(path));

    let path = "src/main.rs";
    assert!(!is_ignored_path(path));

    let path = "debug.log";
    assert!(is_ignored_path(path));
}

#[test]
fn test_offset_to_byte_ascii_and_unicode() {
    assert_eq!(offset_to_byte(0, "hello"), Ok(0));
    assert_eq!(offset_to_byte(5, "hello"), Ok(5));
    // Cyrillic letters take two bytes each
    assert_eq!(offset_to_byte(3, "привет"), Ok(6));
    assert_eq!(offset_to_byte(7, "привет\nмир"), Ok(13));
}

#[test]
fn test_offset_to_byte_out_of_bounds() {
    assert_eq!(offset_to_byte(6, "hello"), Err(Error::OffsetOutOfBounds));
    assert_eq!(offset_to_byte(1, ""), Err(Error::OffsetOutOfBounds));
}
