use eazyshell::lexer::tokenize;
use eazyshell::token::TokenType;

fn types(line: &str) -> Vec<TokenType> {
    tokenize(line)
        .unwrap()
        .into_iter()
        .map(|t| t.type_)
        .collect()
}

fn values(line: &str) -> Vec<String> {
    tokenize(line)
        .unwrap()
        .into_iter()
        .map(|t| t.value.unwrap_or_default())
        .collect()
}

#[test]
fn empty_input_yields_no_tokens() {
    assert!(tokenize("").unwrap().is_empty());
    assert!(tokenize("   \t  ").unwrap().is_empty());
}

#[test]
fn simple_words() {
    assert_eq!(types("ls -la"), vec![TokenType::Word, TokenType::Word]);
    assert_eq!(values("ls -la"), vec!["ls", "-la"]);
}

#[test]
fn single_quotes_group_without_expansion() {
    let toks = tokenize("'a b'").unwrap();
    assert_eq!(toks.len(), 1);
    assert_eq!(toks[0].type_, TokenType::Word);
    assert_eq!(toks[0].value.as_deref(), Some("'a b'"));
    assert!(toks[0].quoted);
}

#[test]
fn unclosed_single_quote_is_error() {
    assert!(tokenize("'abc").is_err());
}

#[test]
fn trailing_backslash_is_error() {
    assert!(tokenize("abc\\").is_err());
}

#[test]
fn backslash_escape_makes_next_char_literal() {
    let toks = tokenize("a\\ b").unwrap();
    assert_eq!(toks.len(), 1);
    assert_eq!(toks[0].value.as_deref(), Some("a\\ b"));
    assert!(toks[0].quoted);
}

#[test]
fn operators_are_detected() {
    assert_eq!(
        types("a | b"),
        vec![TokenType::Word, TokenType::Pipe, TokenType::Word]
    );
}

#[test]
fn and_or_operators() {
    assert_eq!(
        types("a && b || c"),
        vec![
            TokenType::Word,
            TokenType::And,
            TokenType::Word,
            TokenType::Or,
            TokenType::Word
        ]
    );
}

#[test]
fn redirections() {
    assert_eq!(
        types("cat < in > out"),
        vec![
            TokenType::Word,
            TokenType::RedirectIn,
            TokenType::Word,
            TokenType::RedirectOut,
            TokenType::Word
        ]
    );
}

#[test]
fn append_and_heredoc() {
    assert_eq!(
        types("cmd >> f"),
        vec![TokenType::Word, TokenType::RedirectAppend, TokenType::Word]
    );
    assert_eq!(
        types("cmd << EOF"),
        vec![TokenType::Word, TokenType::RedirectHeredoc, TokenType::Word]
    );
    assert_eq!(
        types("cmd <<- EOF"),
        vec![
            TokenType::Word,
            TokenType::RedirectHeredocTab,
            TokenType::Word
        ]
    );
}

#[test]
fn background_and_clobber() {
    assert_eq!(types("cmd &"), vec![TokenType::Word, TokenType::Background]);
    assert_eq!(
        types("cmd >| f"),
        vec![TokenType::Word, TokenType::RedirectClobber, TokenType::Word]
    );
    assert_eq!(
        types("cmd &> f"),
        vec![TokenType::Word, TokenType::RedirectBothOut, TokenType::Word]
    );
}

#[test]
fn comments_start_at_word_boundary() {
    assert_eq!(types("ls # comment"), vec![TokenType::Word]);
    assert_eq!(types("# full comment"), vec![]);
}

#[test]
fn hash_in_word_is_not_a_comment() {
    let toks = tokenize("a#b").unwrap();
    assert_eq!(toks.len(), 1);
    assert_eq!(toks[0].value.as_deref(), Some("a#b"));
}

#[test]
fn variable_tokens() {
    assert_eq!(types("$HOME"), vec![TokenType::Var]);
    assert_eq!(values("$HOME"), vec!["HOME"]);
    assert_eq!(types("${PATH}"), vec![TokenType::VarBrace]);
    assert_eq!(values("${PATH}"), vec!["PATH"]);
}

#[test]
fn special_variable_names() {
    assert_eq!(values("$?"), vec!["?"]);
    assert_eq!(values("$*"), vec!["*"]);
    assert_eq!(values("$@"), vec!["@"]);
    assert_eq!(values("$!"), vec!["!"]);
    assert_eq!(values("$1"), vec!["1"]);
}

#[test]
fn unquoted_assignment_word_is_assign_token() {
    assert_eq!(types("x=5"), vec![TokenType::Assign]);
    assert_eq!(values("x=5"), vec!["x=5"]);
    assert_eq!(types("_name=value"), vec![TokenType::Assign]);
}

#[test]
fn quoted_value_assignment_is_assign_token() {
    assert_eq!(types("x=\"a b\""), vec![TokenType::Assign]);
    assert_eq!(values("x=\"a b\""), vec!["x=\"a b\""]);
    assert_eq!(types("x='single'"), vec![TokenType::Assign]);
}

#[test]
fn quoted_name_is_not_an_assignment() {
    assert_eq!(types("\"x\"=5"), vec![TokenType::Word]);
}

#[test]
fn lexer_arithmetic_expansion() {
    assert_eq!(types("$(( 1 + 2 ))"), vec![TokenType::Arith]);
    assert_eq!(values("$(( 1 + 2 ))"), vec![" 1 + 2 "]);
}

#[test]
fn unlimited_dollar_parens_are_errors() {
    assert!(tokenize("$(( 1 +").is_err());
}

#[test]
fn command_substitution_is_a_word() {
    let toks = tokenize("$(echo hi)").unwrap();
    assert_eq!(toks.len(), 1);
    assert_eq!(toks[0].type_, TokenType::Word);
    assert_eq!(toks[0].value.as_deref(), Some("$(echo hi)"));
    assert!(!toks[0].quoted);
}

#[test]
fn command_substitution_nested_is_captured_raw() {
    let line = "$(echo $(echo hi))";
    let toks = tokenize(line).unwrap();
    assert_eq!(toks.len(), 1);
    assert_eq!(toks[0].value.as_deref(), Some("$(echo $(echo hi))"));
}

#[test]
fn unclosed_command_substitution_is_error() {
    assert!(tokenize("$(echo").is_err());
}

#[test]
fn unclosed_brace_variable_is_error() {
    assert!(tokenize("${PATH").is_err());
}

#[test]
fn single_char_dollar_is_word() {
    let toks = tokenize("$ x").unwrap();
    assert_eq!(toks.len(), 2);
    assert_eq!(toks[0].value.as_deref(), Some("$"));
}
