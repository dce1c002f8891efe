//! Searching, splitting, joining and printing.
use nala::text;

#[test]
fn find_gives_the_first_position() {
    assert_eq!(text::find("a=b=c", "="), Some(1));
    assert_eq!(text::find("abc", "="), None);
    assert_eq!(text::find("abc", ""), Some(0));
    assert_eq!(text::find("\u{e4}b=c", "="), Some(2));
}

#[test]
fn prefixes_and_suffixes() {
    assert!(text::starts_with("https://x", "http"));
    assert!(!text::starts_with("htt", "http"));
    assert!(text::ends_with("foo.deb", ".deb"));
    assert!(!text::ends_with("deb", ".deb"));
    assert_eq!(text::strip_prefix("file:/a", "file:"), Some("/a".to_string()));
    assert_eq!(text::strip_prefix("/a", "file:"), None);
    assert_eq!(text::strip_suffix("a/", "/"), Some("a".to_string()));
    assert_eq!(text::strip_suffix("a", "/"), None);
}

#[test]
fn split_once_reassembles() {
    let (a, b) = text::split_once("name=1=2", "=").unwrap();
    assert_eq!(a, "name");
    assert_eq!(b, "1=2");
    assert_eq!(format!("{a}={b}"), "name=1=2");
    assert!(text::split_once("name", "=").is_none());
}

#[test]
fn split_and_split_terminator() {
    assert_eq!(text::split("a/b//c", "/"), vec!["a", "b", "", "c"]);
    assert_eq!(text::split("", "/"), vec![""]);
    assert_eq!(text::split_terminator("a/b/", "/"), vec!["a", "b"]);
    assert_eq!(text::split_terminator("", "/"), Vec::<String>::new());
    assert_eq!(text::split_terminator("::", ":"), vec!["", ""]);
}

#[test]
fn join_and_replace() {
    let parts = vec!["a".to_string(), "b".to_string(), "c".to_string()];
    assert_eq!(text::join(&parts, ", "), "a, b, c");
    assert_eq!(text::join(&Vec::new(), ", "), "");
    assert_eq!(text::replace("E: one E: two", "E: ", ""), "one two");
    assert_eq!(text::replace_first("a_b_c", "_", "-"), "a-b_c");
    assert_eq!(text::replace_first("abc", "_", "-"), "abc");
}

#[test]
fn lines_end_at_newlines() {
    assert_eq!(text::lines("a\r\nb\n\nc"), vec!["a", "b", "", "c"]);
    assert_eq!(text::lines("a\n"), vec!["a"]);
    assert_eq!(text::lines("a\r"), vec!["a\r"]);
    assert_eq!(text::lines(""), Vec::<String>::new());
}

#[test]
fn words_and_trimming() {
    assert_eq!(text::split_whitespace("  a\tb \n c\u{a0}d "), vec!["a", "b", "c", "d"]);
    assert_eq!(text::trim_end("a b \n"), "a b");
    assert_eq!(text::trim("  a b\t"), "a b");
    assert_eq!(text::trim("   "), "");
}

#[test]
fn order_of_texts() {
    assert!(text::str_le("a", "b"));
    assert!(text::str_le("a", "aa"));
    assert!(text::str_le("a", "a"));
    assert!(!text::str_le("b", "ab"));
}

#[test]
fn numbers_in_decimal() {
    assert_eq!(text::decimal_of(0), "0");
    assert_eq!(text::decimal_of(1024), "1024");
    assert_eq!(text::decimal_i32(-17), "-17");
    assert_eq!(text::decimal_i32(i32::MIN), "-2147483648");
}

#[test]
fn numbers_are_read_back() {
    assert_eq!(text::parse_u64("1024"), Some(1024));
    assert_eq!(text::parse_u64("+7"), Some(7));
    assert_eq!(text::parse_u64("18446744073709551615"), Some(u64::MAX));
    assert_eq!(text::parse_u64("18446744073709551616"), None);
    assert_eq!(text::parse_u64(""), None);
    assert_eq!(text::parse_u64("+"), None);
    assert_eq!(text::parse_u64("1a"), None);
    assert_eq!(text::parse_u64("-1"), None);
}

#[test]
fn bytes_in_hexadecimal() {
    assert_eq!(text::hex_text(&[0, 255, 16, 171]), "00ff10ab");
    assert_eq!(text::hex_text(&[]), "");
}

#[test]
fn paths() {
    assert_eq!(text::join_path("/var/cache/", "a.deb"), "/var/cache/a.deb");
    assert_eq!(text::join_path("/var/cache", "a.deb"), "/var/cache/a.deb");
    assert_eq!(text::join_path("", "a.deb"), "a.deb");
    assert_eq!(text::join_path("/var", "/etc/x"), "/etc/x");
}

#[test]
fn file_names_agree_with_std() {
    for path in [
        "/usr/bin/", "tmp/foo.txt", "foo.txt/.", "foo.txt/.//", "foo.txt/..", "/", "", ".", "..",
        "./a", "a/./b", "//a",
    ] {
        let expected = std::path::Path::new(path)
            .file_name()
            .map(|s| s.to_string_lossy().to_string());
        assert_eq!(text::file_name(path), expected, "{path}");
    }
}

#[test]
fn joined_paths_agree_with_std() {
    for (dir, name) in [("/a", "b"), ("/a/", "b"), ("", "b"), ("/a", "/b"), ("/a", "")] {
        let expected = std::path::Path::new(dir).join(name).to_string_lossy().to_string();
        assert_eq!(text::join_path(dir, name), expected, "{dir} {name}");
    }
}

#[test]
fn a_text_is_added_once() {
    let mut v = vec!["a".to_string()];
    text::add_text(&mut v, "b".to_string());
    text::add_text(&mut v, "a".to_string());
    assert_eq!(v, vec!["a", "b"]);
    assert!(text::contains_text(&v, "b"));
    assert!(!text::contains_text(&v, "c"));
}

#[test]
fn sorting_without_duplicates() {
    let names: Vec<String> = ["zsh", "apt", "nala", "apt", "zsh"]
        .iter()
        .map(|s| s.to_string())
        .collect();
    let sorted = text::sort_dedup(&names);
    assert_eq!(sorted, vec!["apt", "nala", "zsh"]);
    assert_eq!(text::sort_dedup(&sorted), sorted);
}

#[test]
fn white_space_agrees_with_std() {
    for c in '\0'..=char::MAX {
        assert_eq!(text::is_white(c), c.is_whitespace(), "{c:?}");
    }
}
