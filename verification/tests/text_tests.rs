use blvflag::text::{
    chars_of, contains, count_matches, is_whitespace_char, remove_all_of, split_lines, starts_with,
    strip_suffix_all_of, trim,
};

#[test]
fn trim_removes_surrounding_white_space() {
    assert_eq!(trim("  hi there \n"), "hi there");
    assert_eq!(trim("\u{3000}x\u{85}"), "x");
    assert_eq!(trim(""), "");
    assert_eq!(trim(" \t\r\n"), "");
}

#[test]
fn trim_matches_std_trim() {
    for s in ["a", " a b ", "\u{a0}z\u{2029}", "\u{200b}q\u{200b}", "x\u{1680}"] {
        assert_eq!(trim(s), s.trim());
    }
}

#[test]
fn trim_twice_is_trim_once() {
    for s in ["  a  ", "\n\nb", "c\u{2000}"] {
        let once = trim(s);
        assert_eq!(trim(&once), once);
    }
}

#[test]
fn white_space_matches_std_for_every_char() {
    for c in (0u32..=0x10FFFF).filter_map(char::from_u32) {
        assert_eq!(is_whitespace_char(c), c.is_whitespace(), "char {:x}", c as u32);
    }
}

#[test]
fn split_lines_matches_std_lines() {
    for s in [
        "",
        "a",
        "a\n",
        "a\r\nb\n\nc\n",
        "\n",
        "\n\n",
        "x\r",
        "x\r\n\r\n",
        "one\ntwo\r\nthree",
    ] {
        let expected: Vec<String> = s.lines().map(|l| l.to_string()).collect();
        assert_eq!(split_lines(s), expected, "input {:?}", s);
    }
}

#[test]
fn lines_hold_no_newline() {
    for line in split_lines("a\nb\r\nc\n\nd") {
        assert!(!line.contains('\n'));
    }
}

#[test]
fn remove_all_matches_std_replace() {
    for (s, p) in [("linelinex line", "line"), ("llinee", "line"), ("", "line"), ("aaa", "aa")] {
        assert_eq!(remove_all_of(s, p), s.replace(p, ""));
    }
}

#[test]
fn count_matches_matches_std() {
    for (s, p) in [("def f():\ndef g():", "def "), ("aaaa", "aa"), ("elif x:\nif y:", "if "), ("", "x")] {
        assert_eq!(count_matches(s, p), s.matches(p).count());
    }
}

#[test]
fn strip_suffix_all_matches_std() {
    for s in ["a.py", "a.py.py", "a", ".py", "a.pyc", ""] {
        assert_eq!(strip_suffix_all_of(s, ".py"), s.trim_end_matches(".py"));
        assert!(!strip_suffix_all_of(s, ".py").ends_with(".py"));
    }
}

#[test]
fn starts_with_and_contains_match_std() {
    for (s, p) in [("test_1.json", "test"), ("tes", "test"), ("", ""), ("abc", "")] {
        assert_eq!(starts_with(s, p), s.starts_with(p));
        assert_eq!(contains(s, p), s.contains(p));
    }
    assert!(contains("  File \"x\"", "File"));
    assert!(!contains("file", "File"));
}

#[test]
fn chars_of_keeps_every_char() {
    assert_eq!(chars_of("héllo"), vec!['h', 'é', 'l', 'l', 'o']);
}
