use aether::paths;
use aether::text;

#[test]
fn lines_keep_their_breaks_and_join_to_the_text() {
    let t = "one\r\ntwo\n\nthree";
    let lines = text::split_lines(t);
    assert_eq!(lines, vec!["one\r\n", "two\n", "\n", "three"]);
    assert_eq!(lines.concat(), t);
    assert_eq!(text::plain_lines(t), vec!["one", "two", "", "three"]);
    assert!(text::split_lines("").is_empty());
}

#[test]
fn offsets_become_characters() {
    let v = text::chars_of("aé€z");
    assert_eq!(text::char_index(&v, 0), Some(0));
    assert_eq!(text::char_index(&v, 1), Some(1));
    assert_eq!(text::char_index(&v, 3), Some(2));
    assert_eq!(text::char_index(&v, 6), Some(3));
    assert_eq!(text::char_index(&v, 7), Some(4));
    assert_eq!(text::char_index(&v, 2), None);
}

#[test]
fn texts_are_cut_and_replaced() {
    assert_eq!(text::trim("  a b\t\n"), "a b");
    assert_eq!(text::trim_start_matches("https://https://x", "https://"), "x");
    assert_eq!(text::trim_end_char("host//", '/'), "host");
    assert_eq!(text::cut_before("a?b?c", '?'), "a");
    assert_eq!(text::replace("aaa", "aa", "b"), "ba");
    assert_eq!(text::replace_first("xaxa", "a", "b"), "xbxa");
    assert_eq!(text::replace_first("xyz", "a", "b"), "xyz");
    assert_eq!(text::split("a//b", '/'), vec!["a", "", "b"]);
    assert_eq!(text::strip_prefix("prefix-x", "prefix-"), Some("x".to_string()));
    assert_eq!(text::strip_prefix("x", "prefix-"), None);
    assert_eq!(text::take_chars("héllo", 2), "hé");
}

#[test]
fn numbers_are_written_and_read_back() {
    for n in [0u64, 7, 10, 65535, 65536, u64::MAX] {
        let s = text::write_decimal(n);
        assert_eq!(s, n.to_string());
        assert_eq!(text::parse_number(&s, u64::MAX), Some(n));
    }
    assert_eq!(text::parse_number("+12", 65535), Some(12));
    assert_eq!(text::parse_number("65536", 65535), None);
    assert_eq!(text::parse_number("18446744073709551616", u64::MAX), None);
    assert_eq!(text::parse_number("", 10), None);
    assert_eq!(text::parse_number("+", 10), None);
    assert_eq!(text::parse_number("1a", 100), None);
    assert_eq!(text::write_signed(-42), "-42");
    assert_eq!(text::write_signed(i64::MIN), i64::MIN.to_string());
    assert_eq!(text::write_hex(0xbeef, 8), "0000beef");
}

#[test]
fn texts_are_ordered_by_their_characters() {
    assert!(text::before("a", "b"));
    assert!(text::before("a", "aa"));
    assert!(!text::before("b", "a"));
    assert!(!text::before("a", "a"));
}

#[test]
fn paths_are_taken_apart() {
    assert_eq!(paths::component_list("/a//b/./c/"), vec!["/", "a", "b", "c"]);
    assert_eq!(paths::component_list("./a"), vec![".", "a"]);
    assert_eq!(paths::file_name("/a/b.txt"), Some("b.txt".to_string()));
    assert_eq!(paths::file_name("/a/.."), None);
    assert_eq!(paths::extension("/a/b.tar.gz"), Some("gz".to_string()));
    assert_eq!(paths::extension("/a/.bashrc"), None);
    assert_eq!(paths::parent("/a/b"), Some("/a".to_string()));
    assert_eq!(paths::parent("/"), None);
}

#[test]
fn paths_are_compared_by_components() {
    assert!(paths::starts_with("/home/me/x", "/home/me"));
    assert!(!paths::starts_with("/home/method", "/home/me"));
    assert_eq!(paths::list_below("/w/src/a.rs", "/w"), vec!["src", "a.rs"]);
    assert_eq!(paths::list_below("/w/a", "/other"), vec!["/", "w", "a"]);
}

#[test]
fn a_joined_name_is_the_last_component() {
    for dir in ["/a/b", "/", "rel", ""] {
        let p = paths::join(dir, "file.txt");
        assert_eq!(paths::file_name(&p), Some("file.txt".to_string()));
    }
    assert_eq!(paths::join("/a", "/b"), "/b");
    assert_eq!(paths::join("/a/", "b"), "/a/b");
}
