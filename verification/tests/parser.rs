use eazyshell::ast::{AstNode, Command};
use eazyshell::error::ShellError;
use eazyshell::lexer::tokenize;
use eazyshell::parser::parse;

fn parse_ok(line: &str) -> AstNode {
    let tokens = tokenize(line).expect("lexer error");
    parse(&tokens).expect("parse error")
}

#[test]
fn parses_simple_command() {
    let node = parse_ok("ls -la");
    match node {
        AstNode::Command { command } => {
            assert_eq!(command.argv, vec!["ls", "-la"]);
            assert!(command.infile.is_none());
            assert!(command.outfile.is_none());
        }
        other => panic!("expected command, got {:?}", other),
    }
}

#[test]
fn arith_token_becomes_command_arg() {
    let node = parse_ok("echo $(( 1 + 2 ))");
    match node {
        AstNode::Command { command } => {
            assert_eq!(command.argv, vec!["echo", "$(( 1 + 2 ))"]);
        }
        other => panic!("expected command, got {:?}", other),
    }
}

#[test]
fn parses_redirections() {
    let node = parse_ok("cat < in > out");
    match node {
        AstNode::Command { command } => {
            assert_eq!(command.argv, vec!["cat"]);
            assert_eq!(command.infile.as_deref(), Some("in"));
            assert_eq!(command.outfile.as_deref(), Some("out"));
            assert!(!command.append_out);
        }
        other => panic!("expected command, got {:?}", other),
    }
}

#[test]
fn parses_append_redirection() {
    let node = parse_ok("cmd >> log");
    match node {
        AstNode::Command { command } => {
            assert_eq!(command.outfile.as_deref(), Some("log"));
            assert!(command.append_out);
        }
        other => panic!("expected command, got {:?}", other),
    }
}

#[test]
fn heredoc_sets_delim() {
    let node = parse_ok("cmd << EOF");
    match node {
        AstNode::Command { command } => {
            assert_eq!(command.heredoc_delim.as_deref(), Some("EOF"));
        }
        other => panic!("expected command, got {:?}", other),
    }
}

#[test]
fn parses_pipeline() {
    let node = parse_ok("a | b | c");
    match node {
        AstNode::Pipeline { pipeline } => {
            assert_eq!(pipeline.commands.len(), 3);
            assert_eq!(pipeline.commands[0].argv, vec!["a"]);
            assert_eq!(pipeline.commands[1].argv, vec!["b"]);
            assert_eq!(pipeline.commands[2].argv, vec!["c"]);
        }
        other => panic!("expected pipeline, got {:?}", other),
    }
}

#[test]
fn empty_command_is_error() {
    let toks = tokenize("|").unwrap();
    assert!(parse(&toks).is_err());
}

#[test]
fn parses_and_or_semicolon() {
    let node = parse_ok("a && b || c ; d");
    match node {
        AstNode::Semicolon { left, right } => {
            assert_eq!(
                *left,
                AstNode::binary_or(
                    AstNode::binary_and(
                        AstNode::command(Command {
                            argv: vec!["a".into()],
                            ..Default::default()
                        }),
                        AstNode::command(Command {
                            argv: vec!["b".into()],
                            ..Default::default()
                        }),
                    ),
                    AstNode::command(Command {
                        argv: vec!["c".into()],
                        ..Default::default()
                    }),
                )
            );
            assert_eq!(
                *right,
                AstNode::command(Command {
                    argv: vec!["d".into()],
                    ..Default::default()
                })
            );
        }
        other => panic!("expected semicolon, got {:?}", other),
    }
}

#[test]
fn parses_group() {
    let node = parse_ok("cmd && ( a | b )");
    match node {
        AstNode::And { left, right } => {
            assert_eq!(
                *left,
                AstNode::command(Command {
                    argv: vec!["cmd".into()],
                    ..Default::default()
                })
            );
            match *right {
                AstNode::Group { body } => match *body {
                    AstNode::Pipeline { pipeline } => {
                        assert_eq!(pipeline.commands.len(), 2);
                    }
                    other => panic!("expected pipeline in group, got {:?}", other),
                },
                other => panic!("expected group, got {:?}", other),
            }
        }
        other => panic!("expected and, got {:?}", other),
    }
}

#[test]
fn trailing_operator_produces_error() {
    let toks = tokenize("a &&").unwrap();
    assert!(parse(&toks).is_err());
}

#[test]
fn pipe_missing_rhs_is_error() {
    let toks = tokenize("a |").unwrap();
    assert!(parse(&toks).is_err());
}

#[test]
fn background_separates_commands() {
    let node = parse_ok("a & b");
    match node {
        AstNode::Semicolon { left, right } => {
            assert_eq!(
                *left,
                AstNode::background(AstNode::command(Command {
                    argv: vec!["a".into()],
                    ..Default::default()
                }))
            );
            assert_eq!(
                *right,
                AstNode::command(Command {
                    argv: vec!["b".into()],
                    ..Default::default()
                })
            );
        }
        other => panic!("expected semicolon, got {:?}", other),
    }
}

fn pipeline_of(n: usize) -> String {
    vec!["a"; n].join(" | ")
}

#[test]
fn longest_pipeline_is_accepted() {
    match parse_ok(&pipeline_of(1024)) {
        AstNode::Pipeline { pipeline } => assert_eq!(pipeline.commands.len(), 1024),
        other => panic!("expected pipeline, got {:?}", other),
    }
}

#[test]
fn overlong_pipeline_is_refused() {
    let toks = tokenize(&pipeline_of(1025)).unwrap();
    assert_eq!(
        parse(&toks),
        Err(ShellError::Parse {
            message: "pipeline too long".to_string(),
            near: Some("end of input".to_string()),
        })
    );
}

#[test]
fn error_quotes_the_stopping_token() {
    let toks = tokenize("while a; do b; fi").unwrap();
    assert_eq!(
        parse(&toks),
        Err(ShellError::Parse {
            message: "expected 'done'".to_string(),
            near: Some("fi".to_string()),
        })
    );
}

#[test]
fn operator_without_text_quotes_end_of_input() {
    let toks = tokenize(")").unwrap();
    assert_eq!(
        parse(&toks),
        Err(ShellError::Parse {
            message: "empty command".to_string(),
            near: Some("end of input".to_string()),
        })
    );
}

#[test]
fn error_at_end_quotes_end_of_input() {
    let toks = tokenize("a |").unwrap();
    assert_eq!(
        parse(&toks),
        Err(ShellError::Parse {
            message: "expected a command in pipeline".to_string(),
            near: Some("end of input".to_string()),
        })
    );
}
