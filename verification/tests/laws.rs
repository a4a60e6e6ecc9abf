use eazyshell::braces::split_top_commas;
use eazyshell::error::ShellError;
use eazyshell::executor::{assign_fields, first_field};
use eazyshell::fields::{field_split, Expanded};
use eazyshell::lexer::tokenize;
use eazyshell::shell::Shell;
use eazyshell::token::TokenType;
use eazyshell::variant::{expand_variant, VariantStep};

fn strings(words: &[&str]) -> Vec<String> {
    words.iter().map(|w| w.to_string()).collect()
}

fn expand_done(raw: &str, shell: &Shell) -> Expanded {
    match expand_variant(raw, shell, &Vec::new(), 0) {
        Ok(VariantStep::Done(e, _)) => e,
        _ => panic!("expected a finished expansion"),
    }
}

#[test]
fn splitting_drops_only_unquoted_separators() {
    let e = Expanded { text: " a\tb  c \n".to_string(), quoted: vec![false; 9] };
    let fields = field_split(&e);
    let texts: Vec<&str> = fields.iter().map(|f| f.text.as_str()).collect();
    assert_eq!(texts, vec!["a", "b", "c"]);
    assert!(fields.iter().all(|f| f.quoted.len() == f.text.chars().count()));
}

#[test]
fn separators_alone_give_one_empty_field() {
    let e = Expanded { text: " \t\n ".to_string(), quoted: vec![false; 4] };
    let fields = field_split(&e);
    assert_eq!(fields.len(), 1);
    assert_eq!(fields[0].text, "");
    assert!(fields[0].quoted.is_empty());
}

#[test]
fn quote_free_word_has_no_quoted_flag() {
    let shell = Shell::new(vec![("X".to_string(), "1 2".to_string())]);
    let e = expand_done("a$X", &shell);
    assert_eq!(e.text, "a1 2");
    assert_eq!(e.quoted, vec![false; 4]);
}

#[test]
fn double_quoted_word_has_every_flag() {
    let shell = Shell::new(vec![("X".to_string(), "v w".to_string())]);
    let e = expand_done("\"a $X\"", &shell);
    assert_eq!(e.text, "a v w");
    assert_eq!(e.quoted, vec![true; 5]);
}

#[test]
fn one_part_per_top_level_comma() {
    let chars: Vec<char> = "a,{b,c},'d,e',f".chars().collect();
    let parts = split_top_commas(&chars, 0, chars.len());
    assert_eq!(parts, strings(&["a", "{b,c}", "'d,e'", "f"]));
    assert_eq!(parts.join(","), "a,{b,c},'d,e',f");
}

#[test]
fn assignment_joins_the_fields() {
    let mut shell = Shell::new(vec![]);
    assign_fields(&mut shell, "V", &strings(&["x", "y", "z"]));
    assert_eq!(shell.get_var("V"), Some("x y z"));
}

#[test]
fn target_is_the_first_field() {
    assert_eq!(first_field(strings(&["out", "more"])), "out");
    assert_eq!(first_field(Vec::new()), "");
}

#[test]
fn tokens_carry_text_exactly_when_they_are_words() {
    let toks = tokenize("x=5 \"y\"=1 1x=2 a|b && c >> f").unwrap();
    for t in &toks {
        let operator = matches!(
            t.type_,
            TokenType::Pipe | TokenType::And | TokenType::RedirectAppend
        );
        assert_eq!(t.value.is_none(), operator);
        if t.quoted {
            assert!(matches!(t.type_, TokenType::Word | TokenType::Assign));
        }
    }
    let kinds: Vec<TokenType> = toks.iter().map(|t| t.type_).collect();
    assert_eq!(
        kinds,
        vec![
            TokenType::Assign,
            TokenType::Word,
            TokenType::Word,
            TokenType::Word,
            TokenType::Pipe,
            TokenType::Word,
            TokenType::And,
            TokenType::Word,
            TokenType::RedirectAppend,
            TokenType::Word,
        ]
    );
}

#[test]
fn unclosed_quote_fails_at_the_end_of_the_line() {
    match tokenize("echo 'abc") {
        Err(ShellError::Lex { column, .. }) => assert_eq!(column, 10),
        other => panic!("expected a lexer error, got {:?}", other),
    }
}

#[test]
fn pattern_elements_take_their_part_of_the_text() {
    assert!(eazyshell::glob::glob_match("a[!b-d]?*", "axyz"));
    assert!(eazyshell::glob::glob_match("a[!b-d]?*", "ax?"));
    assert!(!eazyshell::glob::glob_match("a[!b-d]?*", "acy"));
    assert!(!eazyshell::glob::glob_match("a[!b-d]?*", "ax"));
    assert!(eazyshell::glob::glob_match("*.rs", ".rs"));
    assert!(eazyshell::glob::glob_match("[]x]", "]"));
    assert!(!eazyshell::glob::glob_match("abc", "abcd"));
}

#[test]
fn command_word_expands_like_a_word_without_globbing() {
    let shell = Shell::new(vec![]);
    let as_cmd = eazyshell::words::expand_cmd_word("[", &shell, &Vec::new());
    match as_cmd {
        Ok(eazyshell::words::WordStep::Done(fields)) => {
            assert_eq!(fields.len(), 1);
            assert!(matches!(&fields[0], eazyshell::words::Field::Word(t) if t == "["));
        }
        _ => panic!("expected one field"),
    }
    match eazyshell::words::expand_word("[", &shell, &Vec::new()) {
        Ok(eazyshell::words::WordStep::Done(fields)) => {
            assert_eq!(fields.len(), 1);
            assert!(matches!(&fields[0], eazyshell::words::Field::Pattern(t) if t == "["));
        }
        _ => panic!("expected one field"),
    }
}

#[test]
fn arithmetic_failure_is_an_evaluation_error() {
    let shell = Shell::new(vec![]);
    match expand_variant("$((1/0))", &shell, &Vec::new(), 0) {
        Err(ShellError::Eval { message }) => assert_eq!(message, "division by zero"),
        _ => panic!("expected an evaluation error"),
    }
}

#[test]
fn words_are_quoted_only_by_quotes_outside_substitutions() {
    let quoted = |line: &str| tokenize(line).unwrap()[0].quoted;
    assert!(!quoted("a$(echo \"x\")"));
    assert!(quoted("a\"b\"$(x)"));
    assert!(quoted("$(x)'y'"));
    assert!(quoted("a\\ b"));
    assert!(!quoted("plain"));
}
