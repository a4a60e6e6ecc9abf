use eazyshell::ast::{AstNode, Command};
use eazyshell::braces::brace_expand;
use eazyshell::error::ShellError;
use eazyshell::executor::{
    cmd_has_redirection, dispatch, join_words, launched, pipeline_stage_check,
    pipeline_stage_keep, plan_background, Background, Dispatch,
};
use eazyshell::glob::glob_match;
use eazyshell::globbing::{
    glob_dirs, glob_finish, glob_parts, glob_start, glob_step, sort_texts, split_text,
};
use eazyshell::input::{heredoc_delims, heredoc_line, strip_line_end, substitution_value};
use eazyshell::lexer::tokenize;
use eazyshell::parser::parse;
use eazyshell::shell::{status_code, JobStatus, Shell};

fn parse_ok(line: &str) -> AstNode {
    parse(&tokenize(line).unwrap()).unwrap()
}

fn strings(words: &[&str]) -> Vec<String> {
    words.iter().map(|w| w.to_string()).collect()
}

fn command_of(line: &str) -> Command {
    match parse_ok(line) {
        AstNode::Command { command } => command,
        _ => panic!("expected a command"),
    }
}

#[test]
fn literal_patterns_match_only_themselves() {
    assert!(glob_match("main.rs", "main.rs"));
    assert!(!glob_match("main.rs", "main.rx"));
    assert!(!glob_match("main", "main.rs"));
    assert!(glob_match("", ""));
}

#[test]
fn star_matches_everything() {
    assert!(glob_match("*", ""));
    assert!(glob_match("*", "anything at all"));
}

#[test]
fn words_without_braces_are_kept() {
    assert_eq!(brace_expand("plain"), vec!["plain"]);
    assert_eq!(brace_expand("a}b,c"), vec!["a}b,c"]);
}

#[test]
fn export_then_lookup_and_unset() {
    let mut s = Shell::new(vec![]);
    let _ = eazyshell::builtins::run_builtin("export", &strings(&["export", "K=v=w"]), &mut s);
    assert_eq!(s.get_var("K"), Some("v=w"));
    let _ = eazyshell::builtins::run_builtin("unset", &strings(&["unset", "K"]), &mut s);
    assert_eq!(s.get_var("K"), None);
}

#[test]
fn errors_are_described() {
    assert_eq!(
        ShellError::lex("unclosed quote", 4).describe(),
        "shell: lex error at column 4: unclosed quote"
    );
    assert_eq!(
        ShellError::parse("bad", Some("fi".to_string())).describe(),
        "shell: parse error near 'fi': bad"
    );
    assert_eq!(
        ShellError::parse("bad", None).describe(),
        "shell: parse error: bad"
    );
    assert_eq!(ShellError::eval("oops").describe(), "shell: oops");
}

#[test]
fn line_ends_are_stripped() {
    assert_eq!(strip_line_end("abc\n"), "abc");
    assert_eq!(strip_line_end("abc\r\n"), "abc");
    assert_eq!(strip_line_end("abc\r"), "abc\r");
    assert_eq!(strip_line_end("abc"), "abc");
}

#[test]
fn heredoc_bodies_end_at_the_delimiter() {
    let mut body = String::new();
    assert!(!heredoc_line(&mut body, "one\n", "EOF"));
    assert!(!heredoc_line(&mut body, "two\r\n", "EOF"));
    assert!(heredoc_line(&mut body, "EOF\n", "EOF"));
    assert_eq!(body, "one\ntwo\n");
}

#[test]
fn heredoc_delimiters_in_order() {
    let ast = parse_ok("a << X && b << Y | c ; d");
    assert_eq!(heredoc_delims(&ast), vec!["X", "Y"]);
    let ast = parse_ok("a");
    assert!(heredoc_delims(&ast).is_empty());
}

#[test]
fn substitution_output_loses_trailing_newlines() {
    assert_eq!(substitution_value("hi\n\r\n"), "hi");
    assert_eq!(substitution_value("a\nb\n"), "a\nb");
    assert_eq!(substitution_value(""), "");
}

#[test]
fn dispatch_of_commands() {
    let plain = command_of("ls -l");
    let redirected = command_of("echo hi > f");
    assert!(!cmd_has_redirection(&plain));
    assert!(cmd_has_redirection(&redirected));
    assert!(matches!(dispatch(&plain, &vec![], true), Ok(Dispatch::Nothing)));
    assert!(matches!(
        dispatch(&plain, &strings(&["echo", "x"]), true),
        Ok(Dispatch::Builtin)
    ));
    assert!(matches!(
        dispatch(&plain, &strings(&["echo", "x"]), false),
        Ok(Dispatch::Program)
    ));
    assert!(matches!(
        dispatch(&plain, &strings(&["ls"]), true),
        Ok(Dispatch::Program)
    ));
    assert_eq!(
        dispatch(&redirected, &strings(&["echo", "hi"]), true).err(),
        Some(ShellError::eval("redirection on builtins not yet implemented"))
    );
}

#[test]
fn pipeline_stages() {
    let heredoc = command_of("cat << E");
    assert!(pipeline_stage_check(0, &heredoc).is_ok());
    assert_eq!(
        pipeline_stage_check(1, &heredoc).err(),
        Some(ShellError::eval(
            "heredoc on non-first pipeline command is not supported"
        ))
    );
    assert_eq!(pipeline_stage_keep(&vec![]), Ok(false));
    assert_eq!(pipeline_stage_keep(&strings(&["ls"])), Ok(true));
    assert_eq!(
        pipeline_stage_keep(&strings(&["cd"])),
        Err(ShellError::eval("builtins in pipelines not yet supported"))
    );
}

#[test]
fn background_plans() {
    let body = |line: &str| match parse_ok(line) {
        AstNode::Background { body } => *body,
        other => other,
    };
    assert!(matches!(plan_background(body("sleep 1")), Ok(Background::Simple(_))));
    assert_eq!(
        plan_background(body("sleep 1 > f")).err(),
        Some(ShellError::eval("redirection on builtins not yet implemented"))
    );
    assert_eq!(
        plan_background(body("a | b")).err(),
        Some(ShellError::eval("background of pipeline not yet supported"))
    );
    assert_eq!(
        plan_background(body("a && b")).err(),
        Some(ShellError::eval("background of compound command not supported"))
    );
}

#[test]
fn launching_records_a_job() {
    let mut s = Shell::new(vec![]);
    s.last_status = 3;
    assert_eq!(launched(&mut s, 321, &strings(&["sleep", "5"])), 0);
    assert_eq!(s.jobs.len(), 1);
    assert_eq!(s.jobs[0].id, 1);
    assert_eq!(s.jobs[0].pid, 321);
    assert_eq!(s.jobs[0].cmdline, "sleep 5");
    assert_eq!(s.jobs[0].status, JobStatus::Running);
    assert_eq!(s.last_bg_pid, Some(321));
    assert_eq!(s.last_status, 0);
    assert_eq!(s.next_job_id, 2);
}

#[test]
fn words_are_joined_by_blanks() {
    assert_eq!(join_words(&strings(&["a", "b c", ""])), "a b c ");
    assert_eq!(join_words(&vec![]), "");
}

#[test]
fn exit_statuses() {
    assert_eq!(status_code(Some(3), None), 3);
    assert_eq!(status_code(None, Some(9)), 137);
    assert_eq!(status_code(None, None), 1);
}

#[test]
fn glob_walk_over_listings() {
    assert_eq!(glob_parts("/usr/*/bin"), vec!["usr", "*", "bin"]);
    assert_eq!(glob_parts("a//b"), vec!["a", "", "b"]);
    assert_eq!(glob_start("/x"), vec!["/"]);
    assert_eq!(glob_start("x"), vec![""]);
    assert_eq!(split_text("a:b:", ':'), vec!["a", "b", ""]);

    let bases = vec!["".to_string()];
    assert_eq!(glob_dirs("*.rs", &bases), vec!["."]);
    assert!(glob_dirs("src", &bases).is_empty());
    let listing = vec![strings(&["b.rs", "a.rs", "c.txt"])];
    let found = glob_step("*.rs", &bases, &listing);
    assert_eq!(found, vec!["b.rs", "a.rs"]);
    assert_eq!(glob_finish(found), vec!["a.rs", "b.rs"]);

    let root = vec!["/".to_string()];
    assert_eq!(glob_step("usr", &root, &vec![]), vec!["/usr"]);
    assert_eq!(
        glob_step("b*", &root, &vec![strings(&["bin", "boot", "etc"])]),
        vec!["/bin", "/boot"]
    );
    let deeper = vec!["src".to_string()];
    assert_eq!(
        glob_step("*.rs", &deeper, &vec![strings(&["lib.rs"])]),
        vec!["src/lib.rs"]
    );
    assert_eq!(glob_finish(strings(&[".", "b", "a"])), vec!["a", "b"]);
}

#[test]
fn texts_sort_by_character() {
    assert_eq!(
        sort_texts(strings(&["b", "B", "a", "ab", "", "a"])),
        vec!["", "B", "a", "a", "ab", "b"]
    );
}
