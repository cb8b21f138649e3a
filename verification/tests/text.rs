use codex_ble_bridge::text::{
    ascii_lowercase, bytes_contain, escape_single_quotes, first_line, path_file_name, text_eq,
    trim_text,
};

#[test]
fn trim_removes_unicode_whitespace() {
    assert_eq!(trim_text("\u{3000} a b \t\n"), "a b");
    assert_eq!(trim_text("   "), "");
}

#[test]
fn first_line_stops_at_line_endings() {
    assert_eq!(first_line("one\ntwo"), Some("one"));
    assert_eq!(first_line("one\r\ntwo"), Some("one"));
    assert_eq!(first_line("one\rtwo"), Some("one\rtwo"));
    assert_eq!(first_line("\n"), Some(""));
    assert_eq!(first_line(""), None);
}

#[test]
fn file_names_of_paths() {
    assert_eq!(path_file_name("/usr/bin/"), Some("bin"));
    assert_eq!(path_file_name("tmp/foo.txt"), Some("foo.txt"));
    assert_eq!(path_file_name("foo.txt/.//"), Some("foo.txt"));
    assert_eq!(path_file_name("foo.txt/.."), None);
    assert_eq!(path_file_name("/"), None);
    assert_eq!(path_file_name("."), None);
}

#[test]
fn quotes_are_escaped() {
    assert_eq!(escape_single_quotes("a'b''"), "a'\\''b'\\'''\\''");
}

#[test]
fn byte_helpers() {
    assert_eq!(ascii_lowercase("AbC-é".as_bytes()), "abc-é".as_bytes());
    assert!(bytes_contain(b"abcdef", b"cde"));
    assert!(bytes_contain(b"abc", b""));
    assert!(!bytes_contain(b"ab", b"abc"));
    assert!(text_eq("héllo", "héllo"));
    assert!(!text_eq("hello", "hellO"));
}
