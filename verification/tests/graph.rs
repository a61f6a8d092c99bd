use toke::config::{
    classify_wildcard_string, find_target, is_well_formed, validate_document, Document, Target,
    ValidationError, WildcardSource,
};
use toke::cycle::detect_cycle;
use toke::engine::{execution_plan, Runner};

fn b(s: &str) -> Vec<u8> {
    s.as_bytes().to_vec()
}

fn target(cmd: Option<&str>, deps: Vec<&str>) -> Target {
    Target {
        cmd: cmd.map(b),
        deps: deps.into_iter().map(b).collect(),
        vars: Vec::new(),
        wildcards: None,
    }
}

fn doc(targets: Vec<(&str, Target)>) -> Document {
    Document { vars: Vec::new(), targets: targets.into_iter().map(|(n, t)| (b(n), t)).collect() }
}

#[test]
fn self_dependency_is_a_cycle() {
    let d = doc(vec![("x", target(None, vec!["x"]))]);
    let r = detect_cycle(&d);
    assert_eq!(r, Err(b("x")));
}

#[test]
fn two_step_cycle_is_found() {
    let d = doc(vec![("a", target(None, vec!["b"])), ("b", target(None, vec!["a"]))]);
    assert!(detect_cycle(&d).is_err());
}

#[test]
fn linear_chain_is_accepted() {
    let d = doc(vec![
        ("a", target(Some("echo a"), vec!["b"])),
        ("b", target(Some("echo b"), vec!["c"])),
        ("c", target(Some("echo c"), vec![])),
    ]);
    assert_eq!(detect_cycle(&d), Ok(()));
}

#[test]
fn diamond_is_not_a_cycle() {
    let d = doc(vec![
        ("a", target(None, vec!["b", "c"])),
        ("b", target(None, vec!["d"])),
        ("c", target(None, vec!["d"])),
        ("d", target(None, vec![])),
    ]);
    assert_eq!(detect_cycle(&d), Ok(()));
}

#[test]
fn absent_dependency_is_not_a_cycle() {
    let d = doc(vec![("a", target(Some("echo a"), vec!["missing"]))]);
    assert_eq!(detect_cycle(&d), Ok(()));
}

#[test]
fn lookup_finds_targets_by_name() {
    let d = doc(vec![("a", target(Some("echo a"), vec![])), ("b", target(None, vec![]))]);
    assert!(find_target(&d, &b("a")).is_some());
    assert!(find_target(&d, &b("b")).is_some());
    assert!(find_target(&d, &b("c")).is_none());
}

#[test]
fn duplicate_target_names_are_ill_formed() {
    let good = doc(vec![("a", target(None, vec![])), ("b", target(None, vec![]))]);
    assert!(is_well_formed(&good));
    let bad = doc(vec![("a", target(None, vec![])), ("a", target(None, vec![]))]);
    assert!(!is_well_formed(&bad));
}

#[test]
fn execution_order_is_depth_first_preorder() {
    let d = doc(vec![
        ("a", target(Some("run a"), vec!["b", "c"])),
        ("b", target(Some("run b"), vec!["d"])),
        ("c", target(Some("run c"), vec![])),
        ("d", target(Some("run d"), vec![])),
    ]);
    assert_eq!(detect_cycle(&d), Ok(()));
    assert_eq!(validate_document(&d), Ok(()));
    let plan = execution_plan(&d, &b("a"));
    assert_eq!(plan, vec![b("run d"), b("run b"), b("run c"), b("run a")]);
}

#[test]
fn a_target_reached_twice_runs_twice() {
    let d = doc(vec![
        ("a", target(Some("run a"), vec!["b", "c"])),
        ("b", target(Some("run b"), vec!["d"])),
        ("c", target(Some("run c"), vec!["d"])),
        ("d", target(Some("run d"), vec![])),
    ]);
    let plan = execution_plan(&d, &b("a"));
    assert_eq!(plan, vec![b("run d"), b("run b"), b("run d"), b("run c"), b("run a")]);
}

#[test]
fn absent_dependency_contributes_nothing() {
    let d = doc(vec![("a", target(Some("run a"), vec!["missing"]))]);
    let plan = execution_plan(&d, &b("a"));
    assert_eq!(plan, vec![b("run a")]);
}

#[test]
fn wildcard_target_plans_one_command_per_row() {
    let t = Target {
        cmd: Some(b("echo @@")),
        deps: Vec::new(),
        vars: Vec::new(),
        wildcards: Some(vec![WildcardSource::Values(vec![b("a"), b("b")])]),
    };
    let d = doc(vec![]);
    let d = Document { vars: d.vars, targets: vec![(b("w"), t)] };
    assert_eq!(validate_document(&d), Ok(()));
    let plan = execution_plan(&d, &b("w"));
    assert_eq!(plan, vec![b("echo a"), b("echo b")]);
}

#[test]
fn malformed_wildcard_fails_validation() {
    let t = Target {
        cmd: Some(b("echo @@")),
        deps: Vec::new(),
        vars: Vec::new(),
        wildcards: Some(vec![WildcardSource::Malformed(b("not a command"))]),
    };
    let d = Document { vars: Vec::new(), targets: vec![(b("w"), t)] };
    assert_eq!(validate_document(&d), Err((b("w"), ValidationError::MalformedSource)));
}

#[test]
fn wildcard_count_mismatch_fails_validation() {
    let t = Target {
        cmd: Some(b("echo @@ @@")),
        deps: Vec::new(),
        vars: Vec::new(),
        wildcards: Some(vec![WildcardSource::Values(vec![b("a")])]),
    };
    let d = Document { vars: Vec::new(), targets: vec![(b("w"), t)] };
    assert_eq!(validate_document(&d), Err((b("w"), ValidationError::CountMismatch)));
}

#[test]
fn wildcard_row_mismatch_fails_validation() {
    let t = Target {
        cmd: Some(b("echo @@ @@")),
        deps: Vec::new(),
        vars: Vec::new(),
        wildcards: Some(vec![
            WildcardSource::Values(vec![b("a"), b("b")]),
            WildcardSource::Values(vec![b("x")]),
        ]),
    };
    let d = Document { vars: Vec::new(), targets: vec![(b("w"), t)] };
    assert_eq!(validate_document(&d), Err((b("w"), ValidationError::RowMismatch)));
}

#[test]
fn empty_wildcard_key_fails_validation() {
    let t = Target {
        cmd: Some(b("echo")),
        deps: Vec::new(),
        vars: Vec::new(),
        wildcards: Some(Vec::new()),
    };
    let d = Document { vars: Vec::new(), targets: vec![(b("w"), t)] };
    assert_eq!(validate_document(&d), Err((b("w"), ValidationError::NoSources)));
}

#[test]
fn cycle_detection_precedes_any_execution() {
    // a cyclic document is rejected before a plan is ever computed
    let d = doc(vec![("x", target(Some("echo never"), vec!["x"]))]);
    match detect_cycle(&d) {
        Ok(()) => panic!("cycle not detected"),
        Err(name) => assert_eq!(name, b("x")),
    }
}

#[test]
fn runner_walks_the_plan_in_order() {
    let mut r = Runner::new(vec![b("one"), b("two")]);
    assert_eq!(r.current(), Some(b("one")));
    r.report(true);
    assert_eq!(r.current(), Some(b("two")));
    r.report(true);
    assert_eq!(r.current(), None);
}

#[test]
fn failure_stops_all_later_commands() {
    let mut r = Runner::new(vec![b("one"), b("two"), b("three")]);
    assert_eq!(r.current(), Some(b("one")));
    r.report(false);
    assert_eq!(r.current(), None);
}

#[test]
fn classify_splits_shell_strings_from_malformed() {
    match classify_wildcard_string(b("!ls -1")) {
        WildcardSource::Shell(c) => assert_eq!(c, b("ls -1")),
        _ => panic!("expected a shell source"),
    }
    match classify_wildcard_string(b("plain")) {
        WildcardSource::Malformed(m) => assert_eq!(m, b("plain")),
        _ => panic!("expected a malformed source"),
    }
}
