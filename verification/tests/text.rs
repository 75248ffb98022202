use cc_cockpit::frontmatter::fm_get;
use cc_cockpit::frontmatter::parse_frontmatter;
use cc_cockpit::frontmatter::unquote;
use cc_cockpit::paths::base_name;
use cc_cockpit::paths::file_stem;
use cc_cockpit::text;

#[test]
fn white_space_is_that_of_the_language() {
    for c in '\0'..=char::MAX {
        assert_eq!(text::is_white(c), c.is_whitespace(), "{c:?}");
    }
}

#[test]
fn texts_are_cut_like_the_standard_library_cuts_them() {
    for s in ["", " ", "a", " a b ", "\u{2003}x\u{a0}", "a\r\nb\n\nc\r", "\n", "a\r\r\n", "x\ny\r"] {
        assert_eq!(text::trim(s), s.trim());
        assert_eq!(text::trim_end(s), s.trim_end());
        assert_eq!(text::lines(s), s.lines().collect::<Vec<_>>());
        assert_eq!(text::words(s), s.split_whitespace().collect::<Vec<_>>());
        assert_eq!(text::split(s, '\n'), s.split('\n').collect::<Vec<_>>());
        assert_eq!(text::byte_len(s), s.len());
    }
}

#[test]
fn texts_are_searched_like_the_standard_library_searches_them() {
    for (s, p) in [("abcabc", "bc"), ("aab", "ab"), ("", ""), ("x", ""), ("ab", "abc"), ("é", "e")] {
        assert_eq!(text::has_text(s, p), s.contains(p));
        assert_eq!(text::starts_with(s, p), s.starts_with(p));
        assert_eq!(text::ends_with(s, p), s.ends_with(p));
        assert_eq!(text::strip_prefix(s, p), s.strip_prefix(p).map(String::from));
        assert_eq!(text::strip_suffix(s, p), s.strip_suffix(p).map(String::from));
        assert_eq!(text::text_le(s, p), s <= p);
    }
}

#[test]
fn numbers_are_written_and_read() {
    for n in [0u64, 9, 10, 12345, u64::MAX] {
        assert_eq!(text::decimal(n), n.to_string());
        assert_eq!(text::parse_uint(&n.to_string(), u64::MAX), Some(n));
    }
    for n in [0i64, -1, i64::MIN, i64::MAX] {
        assert_eq!(text::signed_decimal(n), n.to_string());
    }
    for s in ["", "+", "+5", "-5", "007", "18446744073709551616", "1 ", "٣"] {
        assert_eq!(text::parse_uint(s, u64::MAX), s.parse::<u64>().ok(), "{s}");
        assert_eq!(text::parse_uint(s, 0xffff_ffff).map(|v| v as u32), s.parse::<u32>().ok(), "{s}");
    }
}

#[test]
fn capitals_are_made_small_in_ascii_only() {
    assert_eq!(text::ascii_lower("ABC xyz ÄÖ"), "ABC xyz ÄÖ".to_ascii_lowercase());
}

#[test]
fn prefix_ends_between_characters() {
    assert_eq!(text::byte_prefix("aéb", 2), "a");
    assert_eq!(text::byte_prefix("aéb", 3), "aé");
    assert_eq!(text::byte_prefix("a", 9), "a");
}

#[test]
fn repeated_texts_are_kept_once() {
    let list: Vec<String> = ["b", "a", "b"].iter().map(|s| s.to_string()).collect();
    assert_eq!(text::distinct(&list), vec!["b", "a"]);
    assert!(text::has_string(&list, "a"));
    assert!(!text::has_string(&list, "c"));
}

#[test]
fn names_are_taken_from_paths() {
    for p in ["/a/b", "/a/b/", "/", "", "a", "a/..", "a/./", "./", "..", "/a/.hidden"] {
        let want = std::path::Path::new(p).file_name().map(|n| n.to_string_lossy().into_owned());
        assert_eq!(base_name(p), want, "{p}");
    }
    for n in ["a.md", "a.b.md", ".md", "a.", "a", "..md", "a.MD"] {
        let path = std::path::Path::new(n);
        let want = if path.extension().and_then(|e| e.to_str()) == Some("md") {
            path.file_stem().map(|s| s.to_string_lossy().into_owned())
        } else {
            None
        };
        assert_eq!(file_stem(n, "md"), want, "{n}");
    }
}

#[test]
fn frontmatter_is_read() {
    let fm = parse_frontmatter("---\nname: \"x y\"\ndesc: |\n  a\n  b\nempty:\n---\nbody: no\n");
    assert_eq!(fm_get(&fm, "name").as_deref(), Some("x y"));
    assert_eq!(fm_get(&fm, "body"), None);
    assert!(parse_frontmatter("no fence\nname: x\n").is_empty());
    assert_eq!(unquote("'a'"), "a");
    assert_eq!(unquote("'a\""), "'a\"");
}
