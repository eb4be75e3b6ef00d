use blvflag::buckets::RunRecord;
use blvflag::ranking::{
    error_line_overlap, extract_error_line_number, feature_counts, generate_ranking,
    get_line_from_script, word_tokens,
};

const TRACEBACK: &str = "Traceback (most recent call last):\n  File \"/home/u/t.py\", line 3, in <module>\n    x = 1/0\nZeroDivisionError: division by zero\n";

fn run(contents: &str, is_fixed: bool) -> RunRecord {
    RunRecord {
        run_id: String::from("run_1"),
        timestamp: String::from("t"),
        run_contents: contents.to_string(),
        is_error: !is_fixed,
        is_fixed,
    }
}

fn cycle(n: usize, tag: &str) -> Vec<RunRecord> {
    (0..n).map(|i| run(&format!("{}{}", tag, i), i + 1 == n)).collect()
}

#[test]
fn line_number_from_python_traceback() {
    assert_eq!(extract_error_line_number(TRACEBACK), Some(3));
}

#[test]
fn line_number_absent_without_location_line() {
    assert_eq!(extract_error_line_number("NameError: name 'x' is not defined"), None);
    assert_eq!(extract_error_line_number(""), None);
    // mentions line but not File
    assert_eq!(extract_error_line_number("at line 4, col 2"), None);
}

#[test]
fn line_number_skips_location_lines_without_number() {
    let err = "  File \"a.py\", line x\n  File \"b.py\", line 12, in f\n";
    assert_eq!(extract_error_line_number(err), Some(12));
}

#[test]
fn line_number_parsing_edges() {
    assert_eq!(extract_error_line_number("File \"x\", line +7"), Some(7));
    assert_eq!(extract_error_line_number("File \"x\", lineline 5"), Some(5));
    assert_eq!(extract_error_line_number("File \"x\", line -1"), None);
    assert_eq!(extract_error_line_number("File \"x\", line 99999999999999999999999"), None);
}

#[test]
fn script_line_by_number() {
    let script = "a = 1\nb = 2\r\nc = 3\n";
    assert_eq!(get_line_from_script(script, 2), Some(String::from("b = 2")));
    assert_eq!(get_line_from_script(script, 1), Some(String::from("a = 1")));
    assert_eq!(get_line_from_script(script, 0), get_line_from_script(script, 1));
    assert_eq!(get_line_from_script(script, 4), None);
    assert_eq!(get_line_from_script("", 1), None);
}

#[test]
fn tokens_split_at_non_word_runs() {
    let toks: Vec<String> = word_tokens("x = foo(bar)").into_iter().map(|t| t.into_iter().collect()).collect();
    assert_eq!(toks, vec!["x", "foo", "bar"]);
    assert!(word_tokens("+++").is_empty());
}

#[test]
fn overlap_counts_shared_tokens() {
    assert_eq!(error_line_overlap("x = foo(bar)", "def foo():\n    return bar"), Some((2, 3)));
    assert_eq!(error_line_overlap("   ", "anything"), None);
    assert_eq!(error_line_overlap("+++", "anything"), None);
    assert_eq!(error_line_overlap("a a", "a"), Some((2, 2)));
}

#[test]
fn features_of_a_script() {
    let script = "def f():\n  if x:\n    pass\nelif y:\n";
    let f = feature_counts(script);
    assert_eq!(f.lines, 4);
    assert_eq!(f.defs, 1);
    assert_eq!(f.ifs, 2);
    assert_eq!(f.bytes, script.len());
    assert_eq!(feature_counts("é").bytes, 2);
}

#[test]
fn ranking_keeps_best_two_rankable_cycles() {
    let cycles = vec![cycle(1, "a"), cycle(2, "b"), cycle(3, "c"), cycle(2, "d")];
    let keys = vec![100, 5, 7, 7];
    let ranked = generate_ranking(cycles.clone(), &keys);
    assert_eq!(ranked, vec![cycles[2].clone(), cycles[3].clone()]);
}

#[test]
fn ranking_of_nothing_rankable_is_empty() {
    assert!(generate_ranking(vec![], &vec![]).is_empty());
    assert!(generate_ranking(vec![cycle(1, "a"), cycle(0, "b")], &vec![3, 4]).is_empty());
}

#[test]
fn ranking_with_one_rankable_cycle() {
    let cycles = vec![cycle(1, "a"), cycle(4, "b")];
    assert_eq!(generate_ranking(cycles.clone(), &vec![9, 1]), vec![cycles[1].clone()]);
}

#[test]
fn ranking_prefers_higher_keys() {
    let cycles = vec![cycle(2, "a"), cycle(2, "b"), cycle(2, "c")];
    let ranked = generate_ranking(cycles.clone(), &vec![1, 3, 2]);
    assert_eq!(ranked, vec![cycles[1].clone(), cycles[2].clone()]);
}
