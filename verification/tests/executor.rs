use eazyshell::ast::AstNode;
use eazyshell::error::ShellError;
use eazyshell::executor::{Action, Evaluator, Event};
use eazyshell::lexer::tokenize;
use eazyshell::parser::parse;
use eazyshell::shell::Shell;
use eazyshell::words::expand_wordlist;

fn parse_ok(line: &str) -> AstNode {
    parse(&tokenize(line).unwrap()).unwrap()
}

fn leaf_name(a: &Action) -> String {
    match a {
        Action::RunLeaf(AstNode::Command { command }) => command.argv[0].clone(),
        Action::RunLeaf(_) => "<leaf>".to_string(),
        Action::Expand(_) => "<expand>".to_string(),
        Action::Finished(s) => format!("<finished {}>", s),
        Action::Error(_) => "<error>".to_string(),
    }
}

/// Runs a line, each command `name` finishing with the status `statuses`
/// gives for it (0 when absent); returns the commands run and the final
/// action.
fn run(line: &str, statuses: &[(&str, i32)], shell: &mut Shell) -> (Vec<String>, String) {
    let (mut ev, mut action) = Evaluator::start(parse_ok(line));
    let mut ran = Vec::new();
    loop {
        match &action {
            Action::RunLeaf(_) => {
                let name = leaf_name(&action);
                let status = statuses
                    .iter()
                    .find(|(n, _)| *n == name)
                    .map(|(_, s)| *s)
                    .unwrap_or(0);
                ran.push(name);
                action = ev.resume(shell, Event::Status(status));
            }
            Action::Expand(words) => {
                let words = words.clone();
                action = ev.resume(shell, Event::Words(words));
            }
            _ => return (ran, leaf_name(&action)),
        }
    }
}

#[test]
fn and_skips_the_right_side_after_a_failure() {
    let mut s = Shell::new(vec![]);
    let (ran, end) = run("a && b", &[("a", 1)], &mut s);
    assert_eq!(ran, vec!["a"]);
    assert_eq!(end, "<finished 1>");
    assert_eq!(s.last_status, 1);
    let (ran, end) = run("a && b", &[("b", 4)], &mut s);
    assert_eq!(ran, vec!["a", "b"]);
    assert_eq!(end, "<finished 4>");
}

#[test]
fn or_runs_the_right_side_only_after_a_failure() {
    let mut s = Shell::new(vec![]);
    let (ran, _) = run("a || b", &[], &mut s);
    assert_eq!(ran, vec!["a"]);
    let (ran, end) = run("a || b", &[("a", 2)], &mut s);
    assert_eq!(ran, vec!["a", "b"]);
    assert_eq!(end, "<finished 0>");
}

#[test]
fn semicolon_runs_both_and_keeps_the_last_status() {
    let mut s = Shell::new(vec![]);
    let (ran, end) = run("a ; b", &[("a", 3)], &mut s);
    assert_eq!(ran, vec!["a", "b"]);
    assert_eq!(end, "<finished 0>");
}

#[test]
fn if_picks_a_branch() {
    let mut s = Shell::new(vec![]);
    let (ran, _) = run("if c; then t; else e; fi", &[], &mut s);
    assert_eq!(ran, vec!["c", "t"]);
    let (ran, _) = run("if c; then t; else e; fi", &[("c", 1)], &mut s);
    assert_eq!(ran, vec!["c", "e"]);
    let (ran, end) = run("if c; then t; fi", &[("c", 5)], &mut s);
    assert_eq!(ran, vec!["c"]);
    assert_eq!(end, "<finished 5>");
}

#[test]
fn while_with_a_false_condition_gives_zero() {
    let mut s = Shell::new(vec![]);
    let (ran, end) = run("while c; do b; done", &[("c", 1)], &mut s);
    assert_eq!(ran, vec!["c"]);
    assert_eq!(end, "<finished 0>");
}

#[test]
fn for_sets_the_variable_for_each_word() {
    let mut s = Shell::new(vec![]);
    let (mut ev, a) = Evaluator::start(parse_ok("for x in 1 2; do b; done"));
    match a {
        Action::Expand(words) => assert_eq!(words, vec!["1", "2"]),
        _ => panic!("expected the words to expand"),
    }
    let a = ev.resume(&mut s, Event::Words(vec!["p".to_string(), "q".to_string()]));
    assert_eq!(leaf_name(&a), "b");
    assert_eq!(s.get_var("x"), Some("p"));
    let a = ev.resume(&mut s, Event::Status(6));
    assert_eq!(leaf_name(&a), "b");
    assert_eq!(s.get_var("x"), Some("q"));
    let a = ev.resume(&mut s, Event::Status(7));
    assert_eq!(leaf_name(&a), "<finished 7>");
    assert_eq!(s.last_status, 7);
}

#[test]
fn for_stops_once_the_shell_stops() {
    let mut s = Shell::new(vec![]);
    let (mut ev, _) = Evaluator::start(parse_ok("for x in a b; do b; done"));
    let _ = ev.resume(&mut s, Event::Words(vec!["a".to_string(), "b".to_string()]));
    s.running = false;
    let a = ev.resume(&mut s, Event::Status(2));
    assert_eq!(leaf_name(&a), "<finished 2>");
}

#[test]
fn for_without_words_gives_zero() {
    let mut s = Shell::new(vec![]);
    let (mut ev, _) = Evaluator::start(parse_ok("for x in; do b; done"));
    let a = ev.resume(&mut s, Event::Words(vec![]));
    assert_eq!(leaf_name(&a), "<finished 0>");
}

#[test]
fn a_failure_ends_the_evaluation() {
    let mut s = Shell::new(vec![]);
    s.last_status = 9;
    let (mut ev, _) = Evaluator::start(parse_ok("a ; b"));
    let a = ev.resume(&mut s, Event::Failed(ShellError::eval("boom")));
    match a {
        Action::Error(e) => assert_eq!(e, ShellError::eval("boom")),
        _ => panic!("expected the error"),
    }
    assert_eq!(s.last_status, 9);
}

#[test]
fn failed_loop_words_end_the_evaluation_with_the_error() {
    let mut s = Shell::new(vec![]);
    let (mut ev, action) = Evaluator::start(parse_ok("for x in a$((1/0)); do a; done"));
    let words = match action {
        Action::Expand(words) => words,
        other => panic!("expected the loop words to be asked for, got {}", leaf_name(&other)),
    };
    let err = match expand_wordlist(&words, &s, &Vec::new()) {
        Err(e) => e,
        Ok(_) => panic!("expected an expansion error"),
    };
    match ev.resume(&mut s, Event::Failed(err.clone())) {
        Action::Error(e) => assert_eq!(e, err),
        other => panic!("expected the error, got {}", leaf_name(&other)),
    }
    assert_eq!(s.last_status, 0);
}
