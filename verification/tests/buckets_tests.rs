use blvflag::buckets::{
    active_error_type, choose_cycle, collect_fixed_cycles, cycle_file_name, cycle_is_closed,
    fixed_prefix, new_run, BucketProbe, CycleTarget, ProbeState, RunRecord,
};

fn run(id: &str, is_fixed: bool) -> RunRecord {
    RunRecord {
        run_id: id.to_string(),
        timestamp: String::from("2024-01-01T00:00:00+00:00"),
        run_contents: format!("print({})", id),
        is_error: !is_fixed,
        is_fixed,
    }
}

#[test]
fn closed_cycle_ends_with_fix() {
    assert!(!cycle_is_closed(&vec![]));
    assert!(!cycle_is_closed(&vec![run("a", false)]));
    assert!(cycle_is_closed(&vec![run("a", false), run("b", true)]));
    assert!(!cycle_is_closed(&vec![run("a", true), run("b", false)]));
}

#[test]
fn choosing_the_cycle() {
    assert_eq!(choose_cycle(0, false), CycleTarget::Start(1));
    assert_eq!(choose_cycle(0, true), CycleTarget::Start(1));
    assert_eq!(choose_cycle(3, true), CycleTarget::Start(4));
    assert_eq!(choose_cycle(3, false), CycleTarget::Continue(2));
}

#[test]
fn fix_closes_cycle_and_next_run_starts_new_one() {
    let mut runs = vec![run("a", false)];
    assert_eq!(choose_cycle(1, cycle_is_closed(&runs)), CycleTarget::Continue(0));
    runs.push(run("b", true));
    assert_eq!(choose_cycle(1, cycle_is_closed(&runs)), CycleTarget::Start(2));
}

#[test]
fn cycle_file_names() {
    assert_eq!(cycle_file_name(1), "cycle_1.json");
    assert_eq!(cycle_file_name(12), "cycle_12.json");
}

#[test]
fn new_run_ids() {
    let r = new_run(1700000000, String::from("ts"), String::from("x = 1"), true, false);
    assert_eq!(r.run_id, "run_1700000000");
    assert_eq!(r.timestamp, "ts");
    assert_eq!(r.run_contents, "x = 1");
    assert!(r.is_error);
    assert!(!r.is_fixed);
    assert_eq!(new_run(-5, String::new(), String::new(), false, true).run_id, "run_-5");
}

fn probe(name: &str, state: ProbeState) -> BucketProbe {
    BucketProbe { error_type: name.to_string(), state }
}

#[test]
fn active_error_type_is_first_open_cycle() {
    let probes = vec![
        probe("KeyError", ProbeState::NoScript),
        probe("TypeError", ProbeState::LastCycle(vec![run("a", false), run("b", true)])),
        probe("NameError", ProbeState::NoCycle),
        probe("ValueError", ProbeState::LastCycle(vec![run("c", false)])),
        probe("IndexError", ProbeState::LastCycle(vec![run("d", false)])),
    ];
    assert_eq!(active_error_type(&probes), Some(String::from("ValueError")));
}

#[test]
fn unreadable_bucket_ends_search() {
    let probes = vec![
        probe("TypeError", ProbeState::Unreadable),
        probe("ValueError", ProbeState::LastCycle(vec![run("c", false)])),
    ];
    assert_eq!(active_error_type(&probes), None);
    let later = vec![
        probe("ValueError", ProbeState::LastCycle(vec![run("c", false)])),
        probe("TypeError", ProbeState::Unreadable),
    ];
    assert_eq!(active_error_type(&later), Some(String::from("ValueError")));
}

#[test]
fn no_active_error_type() {
    assert_eq!(active_error_type(&vec![]), None);
    let probes = vec![probe("E", ProbeState::LastCycle(vec![]))];
    assert_eq!(active_error_type(&probes), None);
}

#[test]
fn fixed_prefix_ends_at_last_fix() {
    let runs = vec![run("a", false), run("b", true), run("c", false), run("d", true), run("e", false)];
    let p = fixed_prefix(runs.clone()).unwrap();
    assert_eq!(p, runs[..4].to_vec());
    assert_eq!(fixed_prefix(vec![run("a", false)]), None);
    assert_eq!(fixed_prefix(vec![]), None);
    let closed = vec![run("a", false), run("b", true)];
    assert_eq!(fixed_prefix(closed.clone()), Some(closed));
}

#[test]
fn fixed_cycles_skip_unreadable_and_unfixed() {
    let c1 = vec![run("a", false), run("b", true)];
    let c2 = vec![run("c", false)];
    let c3 = vec![run("d", true), run("e", false)];
    let got = collect_fixed_cycles(vec![Some(c1.clone()), None, Some(c2), Some(c3.clone())]);
    assert_eq!(got, vec![c1, c3[..1].to_vec()]);
    for c in &got {
        assert!(cycle_is_closed(c));
    }
}
