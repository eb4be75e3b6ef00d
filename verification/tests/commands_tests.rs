use blvflag::commands::{is_confirmation, python_command, removes_on_clear, script_output, OutputType};

#[test]
fn interpreter_by_platform() {
    assert_eq!(python_command(true), "python");
    assert_eq!(python_command(false), "python3");
}

#[test]
fn output_of_successful_and_failed_runs() {
    assert_eq!(script_output(true, b"ok\n", b"warn"), (OutputType::Stdout, String::from("ok\n")));
    assert_eq!(script_output(false, b"ok\n", b"Error: x"), (OutputType::Stderr, String::from("Error: x")));
}

#[test]
fn invalid_utf8_is_replaced() {
    let (kind, text) = script_output(false, b"", &[0xff, b'a']);
    assert_eq!(kind, OutputType::Stderr);
    assert_eq!(text, "\u{FFFD}a");
}

#[test]
fn confirmation_answers() {
    assert!(is_confirmation("y\n"));
    assert!(is_confirmation("  Y  "));
    assert!(!is_confirmation("yes"));
    assert!(!is_confirmation("n"));
    assert!(!is_confirmation(""));
    for s in ["y", "Y\n", " n", "yy", "\u{178}"] {
        assert_eq!(is_confirmation(s), s.trim().to_lowercase() == "y");
    }
}

#[test]
fn clearing_keeps_placeholder() {
    assert!(!removes_on_clear("placeholder.json"));
    assert!(removes_on_clear("test_20240101_101010.json"));
    assert!(removes_on_clear("placeholder.json.bak"));
}
