use dojo::text::{first_line, is_blank, is_white_space_char, split_lines, take_chars, trim};

#[test]
fn lines_split_at_newlines_and_crlf() {
    assert_eq!(split_lines("foo\r\nbar\n\r\nbaz\r"), vec!["foo", "bar", "", "baz\r"]);
    assert_eq!(split_lines("a\n"), vec!["a"]);
    assert_eq!(split_lines("\n"), vec![""]);
    assert!(split_lines("").is_empty());
    assert_eq!(split_lines("a\n\nb"), vec!["a", "", "b"]);
    assert_eq!(split_lines("x\r\r\ny"), vec!["x\r", "y"]);
}

#[test]
fn lines_match_std() {
    for s in ["", "a", "a\n", "a\r\n", "\r", "\r\n", "a\rb\n", "é\nü\r\n\n", "x\r\r\ny\r"] {
        let ours = split_lines(s);
        let std_lines: Vec<String> = s.lines().map(|l| l.to_string()).collect();
        assert_eq!(ours, std_lines, "text {:?}", s);
    }
}

#[test]
fn take_chars_counts_characters() {
    assert_eq!(take_chars("abcdefghij", 8), "abcdefgh");
    assert_eq!(take_chars("abc", 8), "abc");
    assert_eq!(take_chars("ééééééééé", 8), "éééééééé");
    assert_eq!(take_chars("abc", 0), "");
}

#[test]
fn first_line_of_description() {
    assert_eq!(first_line("Fix bug\n\nDetails"), "Fix bug");
    assert_eq!(first_line(""), "");
    assert_eq!(first_line("\nsecond"), "");
}

#[test]
fn trim_matches_std() {
    for s in ["", "  ", " a ", "\t\na b\u{3000}", "\u{85}x\u{a0}", "no", " \u{2029}"] {
        assert_eq!(trim(s), s.trim(), "text {:?}", s);
        assert_eq!(is_blank(s), s.trim().is_empty());
    }
}

#[test]
fn white_space_matches_std() {
    for u in 0u32..0x3100 {
        if let Some(c) = char::from_u32(u) {
            assert_eq!(is_white_space_char(c), c.is_whitespace(), "char {:x}", u);
        }
    }
}
