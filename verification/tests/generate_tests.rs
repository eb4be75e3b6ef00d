use blvflag::buckets::RunRecord;
use blvflag::generate::{
    context_prompt, context_step, error_type_of, explain_prompt, explain_prompt_for, explain_window,
    failing_line, fallback_diff_version, history_file_name, previous_fixes, repeated_changes,
    revert_targets, script_stem, should_save, sort_versions, ContextStep,
};

const PLAIN: &str = "Provide the error line number and explain in a compact screen readable format for blind-low-vision programmers. Here is the error:\n";

fn run(contents: &str, is_fixed: bool) -> RunRecord {
    RunRecord {
        run_id: String::from("run_0"),
        timestamp: String::from("t"),
        run_contents: contents.to_string(),
        is_error: !is_fixed,
        is_fixed,
    }
}

#[test]
fn error_type_from_traceback() {
    let err = "Traceback (most recent call last):\n  File \"t.py\", line 3, in <module>\n    x = 1/0\nZeroDivisionError: division by zero\n";
    assert_eq!(error_type_of(err), "ZeroDivisionError");
}

#[test]
fn error_type_uses_last_line_with_colon() {
    assert_eq!(error_type_of("a: 1\n  b : 2\nc"), "b");
    assert_eq!(error_type_of("no colon here\n"), "UnknownError");
    assert_eq!(error_type_of(""), "UnknownError");
    assert_eq!(error_type_of(":x"), "");
}

#[test]
fn stem_and_history_names() {
    assert_eq!(script_stem("test.py"), "test");
    assert_eq!(script_stem("a.py.py"), "a");
    assert_eq!(script_stem("notes.txt"), "notes.txt");
    assert_eq!(history_file_name("test.py", "20240101_120000"), "test_20240101_120000.json");
}

#[test]
fn versions_sort_by_path() {
    let paths = vec![
        String::from("/h/std_history/t_20240102_000000.json"),
        String::from("/h/err_history/t_20240103_000000.json"),
        String::from("/h/std_history/t_20240101_000000.json"),
    ];
    let mut expected = paths.clone();
    expected.sort();
    assert_eq!(sort_versions(paths), expected);
    assert!(sort_versions(vec![]).is_empty());
    let mixed = vec![String::from("b"), String::from("ab"), String::from("a"), String::from("é"), String::from("z")];
    let mut want = mixed.clone();
    want.sort();
    assert_eq!(sort_versions(mixed), want);
}

#[test]
fn revert_needs_two_versions() {
    assert_eq!(revert_targets(0), None);
    assert_eq!(revert_targets(1), None);
    assert_eq!(revert_targets(2), Some((1, 0)));
    assert_eq!(revert_targets(5), Some((4, 3)));
}

#[test]
fn saving_only_changed_scripts() {
    assert!(should_save(None, "x"));
    assert!(should_save(Some("x = 1"), "x = 2"));
    assert!(!should_save(Some("x = 1"), "x = 1"));
}

#[test]
fn fallback_diff() {
    assert_eq!(fallback_diff_version("", 3), Some(1));
    assert_eq!(fallback_diff_version("", 1), None);
    assert_eq!(fallback_diff_version("Line 1:", 3), None);
}

#[test]
fn explain_windows() {
    assert_eq!(explain_window(0), (0, 0));
    assert_eq!(explain_window(1), (0, 0));
    assert_eq!(explain_window(2), (1, 1));
    assert_eq!(explain_window(3), (1, 2));
    assert_eq!(explain_window(4), (1, 3));
    assert_eq!(explain_window(10), (7, 9));
}

#[test]
fn repeated_changes_counts_leading_repeats() {
    let v = |xs: &[&str]| xs.iter().map(|s| s.to_string()).collect::<Vec<String>>();
    assert_eq!(repeated_changes(&v(&[])), 0);
    assert_eq!(repeated_changes(&v(&["a"])), 0);
    assert_eq!(repeated_changes(&v(&["a", "a", "b"])), 1);
    assert_eq!(repeated_changes(&v(&["a", "a", "a"])), 2);
    assert_eq!(repeated_changes(&v(&["a", "b", "a"])), 0);
}

#[test]
fn window_never_holds_two_repeats() {
    for n in 0..20usize {
        let (s, e) = explain_window(n);
        let diffs: Vec<String> = (s..e).map(|_| String::from("same")).collect();
        assert!(repeated_changes(&diffs) < 2);
    }
}

#[test]
fn explain_prompts() {
    assert_eq!(explain_prompt("Boom"), format!("{}Boom", PLAIN));
    assert_eq!(explain_prompt_for(1, "Boom"), format!("{}Boom", PLAIN));
    assert_eq!(
        explain_prompt_for(2, "Boom"),
        "This script has failed multiple times even with the same changes. Please Provide the error line number, and offer an alternative solution or suggest a different debugging approach in a compact screen readable format for blind-low-vision programmers. Here is the error:\nBoom"
    );
}

#[test]
fn context_steps() {
    assert_eq!(context_step(false, false, true), ContextStep::Skip);
    assert_eq!(context_step(false, true, false), ContextStep::Skip);
    assert_eq!(context_step(false, true, true), ContextStep::Rank);
    assert_eq!(context_step(true, false, false), ContextStep::Explain);
    assert_eq!(context_step(true, false, true), ContextStep::Rank);
}

#[test]
fn failing_line_of_traceback() {
    let err = "  File \"t.py\", line 2, in <module>\nNameError: y\n";
    assert_eq!(failing_line(err, "x = 1\nprint(y)\n"), "print(y)");
    assert_eq!(failing_line(err, "x = 1\n"), "");
    assert_eq!(failing_line("NameError: y", "x = 1\n"), "");
}

#[test]
fn previous_fixes_of_first_two_cycles() {
    let c1 = vec![run("a0", false), run("a1", false), run("a2", true)];
    let c2 = vec![run("b0", true)];
    let c3 = vec![run("c0", false), run("c1", true)];
    let c4 = vec![run("d0", false), run("d1", true)];
    assert_eq!(
        previous_fixes(&vec![c1.clone(), c2.clone(), c4.clone()]),
        "\n[before fix]\na1\n\n[after fix]\na2\n"
    );
    assert_eq!(
        previous_fixes(&vec![c1, c3]),
        "\n[before fix]\na1\n\n[after fix]\na2\n\n[before fix]\nc0\n\n[after fix]\nc1\n"
    );
    assert_eq!(previous_fixes(&vec![]), "");
}

#[test]
fn context_prompt_text() {
    let c = vec![run("x = 1", false), run("x = 2", true)];
    let p = context_prompt("NameError", "NameError: y", "print(y)", &vec![c]);
    let expected = "You are assisting a blind or low-vision programmer.\nIMPORTANT OUTPUT RULES (MUST FOLLOW):\n- Use CLEAR SECTION HEADERS\n- Use SHORT BULLET POINTS\n- NO PARAGRAPHS\n- Speak directly to the user\n- Do NOT provide the full solution\n====================\nCURRENT ERROR\n====================\nError type:\nNameError\nError message:\nNameError: y\n====================\nCURRENT SCRIPT\n====================\nprint(y)\n====================\nRELEVANT PREVIOUS FIXES\n====================\n\n[before fix]\nx = 1\n\n[after fix]\nx = 2\n\n====================\nRESPONSE FORMAT\n====================\nWHAT IS GOING WRONG\n- Explain root cause\nWHAT YOU DID BEFORE\n- Summarize previous fix\nWHAT TO TRY NEXT\n- 2\u{2013}4 short hints\nBEGIN RESPONSE NOW.";
    assert_eq!(p, expected);
}
