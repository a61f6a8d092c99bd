use toke::bytes::{bytes_eq, split_newlines, trim_ascii};
use toke::subst::{scan_placeholders, shell_requests, substitute};
use toke::vars::{merge_vars, merged_tiers, parse_cli_var, var_lookup};
use toke::wildcard::{count_markers, expand_wildcards, WildcardError};

fn b(s: &str) -> Vec<u8> {
    s.as_bytes().to_vec()
}

fn pair(k: &str, v: &str) -> (Vec<u8>, Vec<u8>) {
    (b(k), b(v))
}

#[test]
fn bytes_eq_compares_contents() {
    assert!(bytes_eq(&b("abc"), &b("abc")));
    assert!(!bytes_eq(&b("abc"), &b("abd")));
    assert!(!bytes_eq(&b("abc"), &b("ab")));
    assert!(bytes_eq(&b(""), &b("")));
}

#[test]
fn trim_removes_ascii_whitespace_at_both_ends() {
    assert_eq!(trim_ascii(&b("  hello \n")), b("hello"));
    assert_eq!(trim_ascii(&b("\t\r\n")), b(""));
    assert_eq!(trim_ascii(&b("a b")), b("a b"));
    assert_eq!(trim_ascii(&b("")), b(""));
}

#[test]
fn split_newlines_gives_segments() {
    assert_eq!(split_newlines(&b("a\nb\nc")), vec![b("a"), b("b"), b("c")]);
    assert_eq!(split_newlines(&b("")), vec![b("")]);
    assert_eq!(split_newlines(&b("one")), vec![b("one")]);
    assert_eq!(split_newlines(&b("a\n\nb")), vec![b("a"), b(""), b("b")]);
}

#[test]
fn shell_output_becomes_value_list() {
    let raw = b(" a\nb\n");
    assert_eq!(split_newlines(&trim_ascii(&raw)), vec![b("a"), b("b")]);
}

#[test]
fn cli_var_needs_exactly_one_equals() {
    assert_eq!(parse_cli_var(&b("name=cli")), Some((b("name"), b("cli"))));
    assert_eq!(parse_cli_var(&b("a=")), Some((b("a"), b(""))));
    assert_eq!(parse_cli_var(&b("=b")), Some((b(""), b("b"))));
    assert_eq!(parse_cli_var(&b("a=b=c")), None);
    assert_eq!(parse_cli_var(&b("noequals")), None);
    assert_eq!(parse_cli_var(&b("")), None);
}

#[test]
fn lookup_takes_the_last_pair() {
    let vars = vec![pair("x", "1"), pair("y", "2"), pair("x", "3")];
    assert_eq!(var_lookup(&vars, &b("x")), Some(b("3")));
    assert_eq!(var_lookup(&vars, &b("y")), Some(b("2")));
    assert_eq!(var_lookup(&vars, &b("z")), None);
}

#[test]
fn local_overrides_global_and_cli_overrides_both() {
    let global = vec![pair("name", "default"), pair("keep", "g")];
    let local = vec![pair("name", "local")];
    let cli = vec![pair("name", "cli")];
    let gl = merge_vars(&global, &local);
    assert_eq!(var_lookup(&gl, &b("name")), Some(b("local")));
    assert_eq!(var_lookup(&gl, &b("keep")), Some(b("g")));
    let all = merge_vars(&gl, &cli);
    assert_eq!(var_lookup(&all, &b("name")), Some(b("cli")));
    assert_eq!(var_lookup(&all, &b("keep")), Some(b("g")));
}

#[test]
fn cli_value_wins_for_every_target() {
    // the same command-line pair layered over two different local tiers
    let global = vec![pair("name", "default")];
    let cli = vec![pair("name", "cli")];
    let local_a: Vec<(Vec<u8>, Vec<u8>)> = vec![];
    let local_b = vec![pair("name", "b")];
    let merged_a = merge_vars(&merge_vars(&global, &local_a), &cli);
    let merged_b = merge_vars(&merge_vars(&global, &local_b), &cli);
    assert_eq!(var_lookup(&merged_a, &b("name")), Some(b("cli")));
    assert_eq!(var_lookup(&merged_b, &b("name")), Some(b("cli")));
}

#[test]
fn merged_tiers_orders_the_three_tiers() {
    let global = vec![pair("a", "g"), pair("b", "g"), pair("c", "g")];
    let local = vec![pair("b", "l"), pair("c", "l")];
    let cli = vec![pair("c", "cli")];
    let merged = merged_tiers(&global, &local, &cli);
    assert_eq!(var_lookup(&merged, &b("a")), Some(b("g")));
    assert_eq!(var_lookup(&merged, &b("b")), Some(b("l")));
    assert_eq!(var_lookup(&merged, &b("c")), Some(b("cli")));
    assert_eq!(var_lookup(&merged, &b("d")), None);
}

#[test]
fn scan_finds_placeholders_in_order() {
    assert_eq!(scan_placeholders(&b("echo ${a} ${b}")), vec![b("a"), b("b")]);
    assert_eq!(scan_placeholders(&b("no placeholders")), Vec::<Vec<u8>>::new());
    assert_eq!(scan_placeholders(&b("${}")), Vec::<Vec<u8>>::new());
    assert_eq!(scan_placeholders(&b("${unclosed")), Vec::<Vec<u8>>::new());
    assert_eq!(scan_placeholders(&b("${x} and ${x}")), vec![b("x"), b("x")]);
}

#[test]
fn greet_resolves_to_hello_world() {
    let vars = vec![pair("name", "world")];
    let cmd = b("echo hello ${name}");
    let requests = shell_requests(&cmd, &vars);
    assert!(requests.is_empty());
    let resolved = substitute(&cmd, &vars, &Vec::new());
    assert_eq!(resolved, b("echo hello world"));
}

#[test]
fn unresolved_placeholder_is_left_verbatim() {
    let vars = vec![pair("other", "x")];
    let resolved = substitute(&b("echo ${missing}"), &vars, &Vec::new());
    assert_eq!(resolved, b("echo ${missing}"));
}

#[test]
fn every_occurrence_of_a_resolved_placeholder_is_replaced() {
    let vars = vec![pair("a", "x")];
    let resolved = substitute(&b("${a} ${a}"), &vars, &Vec::new());
    assert_eq!(resolved, b("x x"));
}

#[test]
fn shell_valued_variable_requests_its_command() {
    let vars = vec![pair("rev", "!git rev-parse HEAD")];
    let cmd = b("echo ${rev}");
    let requests = shell_requests(&cmd, &vars);
    assert_eq!(requests, vec![b("git rev-parse HEAD")]);
    let outs = vec![b("abc123")];
    assert_eq!(substitute(&cmd, &vars, &outs), b("echo abc123"));
}

#[test]
fn repeated_shell_placeholder_requests_twice() {
    let vars = vec![pair("t", "!date")];
    let cmd = b("${t} ${t}");
    let requests = shell_requests(&cmd, &vars);
    assert_eq!(requests, vec![b("date"), b("date")]);
    let outs = vec![b("one"), b("two")];
    // the first replacement already rewrites every occurrence
    assert_eq!(substitute(&cmd, &vars, &outs), b("one one"));
}

#[test]
fn resolution_is_idempotent_on_resolved_text() {
    let vars = vec![pair("name", "world")];
    let once = substitute(&b("echo hello ${name}"), &vars, &Vec::new());
    let twice = substitute(&once, &vars, &Vec::new());
    assert_eq!(once, twice);
}

#[test]
fn marker_count_is_non_overlapping() {
    assert_eq!(count_markers(&b("echo @@ @@")), 2);
    assert_eq!(count_markers(&b("@@@")), 1);
    assert_eq!(count_markers(&b("@@@@")), 2);
    assert_eq!(count_markers(&b("no markers")), 0);
}

#[test]
fn one_wildcard_expands_per_row() {
    let lists = vec![vec![b("a"), b("b")]];
    let rows = expand_wildcards(&b("echo @@"), &lists).unwrap();
    assert_eq!(rows, vec![b("echo a"), b("echo b")]);
}

#[test]
fn wildcards_fill_markers_in_declaration_order() {
    let lists = vec![vec![b("1"), b("2")], vec![b("x"), b("y")]];
    let rows = expand_wildcards(&b("pair @@ @@"), &lists).unwrap();
    assert_eq!(rows, vec![b("pair 1 x"), b("pair 2 y")]);
}

#[test]
fn marker_count_mismatch_is_rejected() {
    let lists = vec![vec![b("a")], vec![b("b")]];
    assert_eq!(expand_wildcards(&b("echo @@"), &lists), Err(WildcardError::CountMismatch));
}

#[test]
fn unequal_value_lists_are_rejected() {
    let lists = vec![vec![b("a"), b("b")], vec![b("x")]];
    assert_eq!(expand_wildcards(&b("echo @@ @@"), &lists), Err(WildcardError::RowMismatch));
}

#[test]
fn empty_wildcard_list_is_rejected() {
    let lists: Vec<Vec<Vec<u8>>> = Vec::new();
    assert_eq!(expand_wildcards(&b("echo"), &lists), Err(WildcardError::NoSources));
}
