use blvflag::diff::{compare_strs, count_changes};

#[test]
fn changes_line_by_line() {
    assert_eq!(count_changes("a\nb", "a\nc\nd"), 2);
    assert_eq!(compare_strs("a\nb", "a\nc\nd"), "Line 2:\n- b\n+ c\nLine 3:\n+ d\n");
    assert_eq!(compare_strs("a\nb\n", "a\n"), "Line 2:\n- b\n");
}

#[test]
fn text_against_itself_has_no_change() {
    for s in ["", "a", "x = 1\nprint(x)\n"] {
        assert_eq!(count_changes(s, s), 0);
        assert_eq!(compare_strs(s, s), "");
    }
}

#[test]
fn trailing_newline_is_no_change() {
    assert_eq!(count_changes("a\n", "a"), 0);
    assert_eq!(count_changes("a\r\n", "a\n"), 0);
}
