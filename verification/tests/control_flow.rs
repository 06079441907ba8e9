use codecrafters_shell::control::{
    chain_should_continue, execute_case, execute_chain, execute_for, execute_if, execute_while_until, ForStep, Step,
    MAX_ITERATIONS,
};
use codecrafters_shell::expand::ExpansionContext;
use codecrafters_shell::glob_pattern::matches_pattern;
use codecrafters_shell::split::ChainOperator;

fn strings(v: &[&str]) -> Vec<String> {
    v.iter().map(|s| s.to_string()).collect()
}

fn run(s: &str, last: i32) -> Step {
    Step::Run(s.to_string(), last)
}

#[test]
fn chain_operators_decide() {
    assert!(chain_should_continue(ChainOperator::And, 0));
    assert!(!chain_should_continue(ChainOperator::And, 1));
    assert!(chain_should_continue(ChainOperator::Or, 2));
    assert!(!chain_should_continue(ChainOperator::Or, 0));
    assert!(chain_should_continue(ChainOperator::Sequence, 0));
    assert!(chain_should_continue(ChainOperator::Sequence, 9));
}

#[test]
fn and_runs_next_only_after_success() {
    let mut c = execute_chain(strings(&["mkdir newdir", "cd newdir"]), vec![ChainOperator::And]);
    assert_eq!(c.step(), run("mkdir newdir", 0));
    c.resume(0);
    assert_eq!(c.step(), run("cd newdir", 0));
    c.resume(0);
    assert_eq!(c.step(), Step::Finish(0));

    let mut d = execute_chain(strings(&["false", "echo no"]), vec![ChainOperator::And]);
    d.resume(1);
    assert_eq!(d.step(), Step::Finish(1));
}

#[test]
fn or_runs_next_only_after_failure() {
    let mut c = execute_chain(strings(&["cat config.txt", "echo \"no config found\""]), vec![ChainOperator::Or]);
    c.resume(1);
    assert_eq!(c.step(), run("echo \"no config found\"", 1));
    c.resume(0);
    assert_eq!(c.step(), Step::Finish(0));

    let mut d = execute_chain(strings(&["true", "echo no"]), vec![ChainOperator::Or]);
    d.resume(0);
    assert_eq!(d.step(), Step::Finish(0));
}

#[test]
fn sequence_runs_everything() {
    let mut c = execute_chain(
        strings(&["echo starting", "ls", "echo done"]),
        vec![ChainOperator::Sequence, ChainOperator::Sequence],
    );
    c.resume(0);
    c.resume(2);
    assert_eq!(c.step(), run("echo done", 2));
    c.resume(0);
    assert_eq!(c.step(), Step::Finish(0));
}

#[test]
fn skipped_command_passes_the_decision_on() {
    let mut c = execute_chain(strings(&["a", "b", "c"]), vec![ChainOperator::And, ChainOperator::Or]);
    c.resume(3);
    assert_eq!(c.step(), run("c", 3));
    c.resume(0);
    assert_eq!(c.step(), Step::Finish(0));

    let mut d = execute_chain(strings(&["a", "b", "c"]), vec![ChainOperator::And, ChainOperator::And]);
    d.resume(3);
    assert_eq!(d.step(), Step::Finish(3));
}

#[test]
fn sequence_runs_after_a_skipped_command() {
    let mut c = execute_chain(strings(&["c0", "c1", "c2"]), vec![ChainOperator::And, ChainOperator::Sequence]);
    c.resume(1);
    assert_eq!(c.step(), run("c2", 1));
    c.resume(7);
    assert_eq!(c.step(), Step::Finish(7));

    let mut d = execute_chain(strings(&["t", "x", "y"]), vec![ChainOperator::Or, ChainOperator::Sequence]);
    d.resume(0);
    assert_eq!(d.step(), run("y", 0));
}

#[test]
fn empty_chain_finishes_at_once() {
    assert_eq!(execute_chain(vec![], vec![]).step(), Step::Finish(0));
}

#[test]
fn if_runs_first_successful_branch() {
    let mut r = execute_if(
        vec![
            ("[ -f config.txt ]".to_string(), strings(&["echo \"config exists\""])),
            ("[ -f config.default ]".to_string(), strings(&["echo \"using default\"", "echo again"])),
        ],
        Some(strings(&["echo \"no config\""])),
    );
    assert_eq!(r.step(), run("[ -f config.txt ]", 0));
    r.resume(1);
    assert_eq!(r.step(), run("[ -f config.default ]", 1));
    r.resume(0);
    assert_eq!(r.step(), run("echo \"using default\"", 1));
    r.resume(0);
    assert_eq!(r.step(), run("echo again", 0));
    r.resume(4);
    assert_eq!(r.step(), Step::Finish(4));
}

#[test]
fn if_falls_back_to_else() {
    let mut r = execute_if(vec![("false".to_string(), strings(&["echo yes"]))], Some(strings(&["echo no"])));
    r.resume(1);
    assert_eq!(r.step(), run("echo no", 1));
    r.resume(0);
    assert_eq!(r.step(), Step::Finish(0));
}

#[test]
fn if_without_else_ends_with_condition_code() {
    let mut r = execute_if(vec![("false".to_string(), strings(&["echo yes"]))], None);
    r.resume(1);
    assert_eq!(r.step(), Step::Finish(1));
    let mut e = execute_if(vec![("true".to_string(), vec![])], None);
    e.resume(0);
    assert_eq!(e.step(), Step::Finish(0));
}

#[test]
fn while_loops_while_condition_succeeds() {
    let mut w = execute_while_until(false, "[ $x -lt 2 ]", strings(&["echo $x", "x=$((x + 1))"]));
    assert_eq!(w.step(), run("[ $x -lt 2 ]", 0));
    w.resume(0);
    assert_eq!(w.step(), run("echo $x", 0));
    w.resume(0);
    assert_eq!(w.step(), run("x=$((x + 1))", 0));
    w.resume(5);
    assert_eq!(w.step(), run("[ $x -lt 2 ]", 5));
    w.resume(1);
    assert_eq!(w.step(), Step::Finish(5));
}

#[test]
fn until_loops_while_condition_fails() {
    let mut u = execute_while_until(true, "test -f done", strings(&["touch done"]));
    u.resume(1);
    assert_eq!(u.step(), run("touch done", 0));
    u.resume(0);
    assert_eq!(u.step(), run("test -f done", 0));
    u.resume(0);
    assert_eq!(u.step(), Step::Finish(0));
}

#[test]
fn loop_stops_after_max_iterations() {
    let mut w = execute_while_until(false, "true", vec![]);
    for _ in 0..MAX_ITERATIONS {
        assert_eq!(w.step(), run("true", 0));
        w.resume(0);
    }
    assert_eq!(w.step(), Step::Finish(0));
}

fn case_ctx() -> ExpansionContext {
    ExpansionContext {
        vars: vec![("1".to_string(), "stop".to_string()), ("f".to_string(), "notes.txt".to_string())],
        pid: 1,
        substitutions: vec![],
        home: None,
    }
}

#[test]
fn case_picks_first_matching_arm() {
    let arms = vec![
        (strings(&["start"]), strings(&["echo \"starting\""])),
        (strings(&["stop", "halt"]), strings(&["echo \"stopping\""])),
        (strings(&["*"]), strings(&["echo \"unknown: $1\""])),
    ];
    let mut c = execute_case("$1", arms, &case_ctx());
    assert_eq!(c.step(), run("echo \"stopping\"", 0));
    c.resume(0);
    assert_eq!(c.step(), Step::Finish(0));
}

#[test]
fn case_star_matches_anything() {
    let arms = vec![(strings(&["a"]), strings(&["echo a"])), (strings(&[" * "]), strings(&["echo other"]))];
    let c = execute_case("zzz", arms, &case_ctx());
    assert_eq!(c.step(), run("echo other", 0));
}

#[test]
fn case_with_globs_and_no_match() {
    let arms = vec![(strings(&["*.txt"]), strings(&["echo text"]))];
    assert_eq!(execute_case("$f", arms, &case_ctx()).step(), run("echo text", 0));
    let none = vec![(strings(&["*.rs"]), strings(&["echo rust"]))];
    assert_eq!(execute_case("$f", none, &case_ctx()).step(), Step::Finish(0));
}

#[test]
fn patterns_match_like_glob() {
    assert!(matches_pattern("foo.txt", "*.txt"));
    assert!(matches_pattern("b", "[abc]"));
    assert!(!matches_pattern("d", "[abc]"));
    assert!(matches_pattern("x", "?"));
    assert!(matches_pattern("anything", "*"));
    assert!(matches_pattern("[", "["));
    assert!(!matches_pattern("a", "["));
}

#[test]
fn for_sets_the_variable_for_each_word() {
    let mut f = execute_for("f", strings(&["a.txt", "b.txt"]), strings(&["echo \"found: $f\""]));
    assert_eq!(f.step(), ForStep::Assign("f".to_string(), "a.txt".to_string()));
    f.assigned();
    assert_eq!(f.step(), ForStep::Run("echo \"found: $f\"".to_string(), 0));
    f.resume(3);
    assert_eq!(f.step(), ForStep::Assign("f".to_string(), "b.txt".to_string()));
    f.assigned();
    assert_eq!(f.step(), ForStep::Run("echo \"found: $f\"".to_string(), 3));
    f.resume(0);
    assert_eq!(f.step(), ForStep::Finish(0));
}

#[test]
fn for_with_empty_body_still_sets_the_variable() {
    let mut f = execute_for("i", strings(&["1", "2"]), vec![]);
    assert_eq!(f.step(), ForStep::Assign("i".to_string(), "1".to_string()));
    f.assigned();
    assert_eq!(f.step(), ForStep::Assign("i".to_string(), "2".to_string()));
    f.assigned();
    assert_eq!(f.step(), ForStep::Finish(0));
}

#[test]
fn for_over_no_words_finishes_at_once() {
    let mut f = execute_for("i", vec![], strings(&["echo x"]));
    assert_eq!(f.step(), ForStep::Finish(0));
    f.resume(5);
    assert_eq!(f.step(), ForStep::Finish(0));
}
