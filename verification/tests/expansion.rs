use eazyshell::braces::{brace_expand, brace_expansion_safe, expand_range, split_once_dots};
use eazyshell::error::ShellError;
use eazyshell::fields::{field_split, Expanded};
use eazyshell::glob::glob_match;
use eazyshell::shell::Shell;
use eazyshell::words::{
    assemble_fields, expand_cmd_word, expand_word, expand_wordlist, has_meta, Field, WordStep,
};

fn shell_with(vars: &[(&str, &str)]) -> Shell {
    Shell::new(
        vars.iter()
            .map(|(k, v)| (k.to_string(), v.to_string()))
            .collect(),
    )
}

fn fields_of(step: WordStep) -> Vec<Field> {
    match step {
        WordStep::Done(fields) => fields,
        WordStep::NeedSubstitution(cmd) => panic!("unexpected substitution: {}", cmd),
    }
}

/// Expands a word with no command substitution, every pattern matching
/// nothing.
fn expand_single(raw: &str, shell: &Shell) -> Vec<String> {
    let fields = fields_of(expand_word(raw, shell, &vec![]).unwrap());
    let none = vec![Vec::new(); fields.len()];
    assemble_fields(fields, &none)
}

#[test]
fn plain_words_are_unchanged() {
    let s = shell_with(&[]);
    assert_eq!(expand_single("hello", &s), vec!["hello"]);
    assert_eq!(expand_single("-la", &s), vec!["-la"]);
}

#[test]
fn simple_param_expansion() {
    let s = shell_with(&[("HOME", "/home/u")]);
    assert_eq!(expand_single("$HOME", &s), vec!["/home/u"]);
    assert_eq!(expand_single("${HOME}/x", &s), vec!["/home/u/x"]);
}

#[test]
fn param_in_middle_of_word_stays_attached() {
    let s = shell_with(&[("X", "b")]);
    assert_eq!(expand_single("a${X}c", &s), vec!["abc"]);
}

#[test]
fn unset_var_expands_empty() {
    let s = shell_with(&[]);
    assert_eq!(expand_single("$NOPE", &s), vec![""]);
}

#[test]
fn last_status_expansion() {
    let mut s = shell_with(&[]);
    s.last_status = 42;
    assert_eq!(expand_single("$?", &s), vec!["42"]);
}

#[test]
fn word_splitting_on_unquoted_ifs() {
    let s = shell_with(&[("X", "a b")]);
    assert_eq!(expand_single("$X", &s), vec!["a", "b"]);
}

#[test]
fn double_quotes_prevent_splitting() {
    let s = shell_with(&[("X", "a b")]);
    assert_eq!(expand_single("\"$X\"", &s), vec!["a b"]);
}

#[test]
fn single_quotes_are_literal() {
    let s = shell_with(&[("X", "y")]);
    assert_eq!(expand_single("'$X'", &s), vec!["$X"]);
    assert_eq!(expand_single("'a b'", &s), vec!["a b"]);
}

#[test]
fn mixed_quoted_and_unquoted_in_one_word() {
    let s = shell_with(&[("X", "p q")]);
    assert_eq!(expand_single("pre-$X-post", &s), vec!["pre-p", "q-post"]);
}

#[test]
fn expansion_arithmetic_expansion() {
    let s = shell_with(&[]);
    assert_eq!(expand_single("$(( 1 + 2 ))", &s), vec!["3"]);
    assert_eq!(expand_single("$(( 2 * 3 + 4 ))", &s), vec!["10"]);
}

#[test]
fn arithmetic_with_variables() {
    let s = shell_with(&[("A", "5")]);
    assert_eq!(expand_single("$(( A * 2 ))", &s), vec!["10"]);
}

#[test]
fn arithmetic_embedded_in_word() {
    let s = shell_with(&[]);
    assert_eq!(expand_single("x$((1 + 2))yy", &s), vec!["x3yy"]);
}

#[test]
fn brace_expansion_comma() {
    let s = shell_with(&[]);
    assert_eq!(expand_single("{a,b,c}", &s), vec!["a", "b", "c"]);
}

#[test]
fn brace_expansion_range() {
    let s = shell_with(&[]);
    assert_eq!(expand_single("f{1..3}", &s), vec!["f1", "f2", "f3"]);
}

#[test]
fn brace_expansion_prefixed() {
    let s = shell_with(&[]);
    assert_eq!(expand_single("x{a,b}y", &s), vec!["xay", "xby"]);
}

#[test]
fn quoted_braces_not_expanded() {
    let s = shell_with(&[]);
    assert_eq!(expand_single("'{a,b}'", &s), vec!["{a,b}"]);
}

#[test]
fn bare_dollar_is_literal() {
    let s = shell_with(&[]);
    assert_eq!(expand_single("$", &s), vec!["$"]);
    assert_eq!(expand_single("a $ bc", &s), vec!["a", "$", "bc"]);
}

#[test]
fn glob_no_match_stays_literal() {
    let s = shell_with(&[]);
    let fields = expand_single("zznope*", &s);
    assert_eq!(fields, vec!["zznope*"]);
}

#[test]
fn glob_matcher_handles_wildcards() {
    assert!(glob_match("*.rs", "main.rs"));
    assert!(glob_match("*.rs", "foo_bar.rs"));
    assert!(!glob_match("*.rs", "main.txt"));
    assert!(glob_match("f?o", "foo"));
    assert!(!glob_match("f?o", "fooo"));
    assert!(glob_match("[abc]", "b"));
    assert!(!glob_match("[abc]", "d"));
    assert!(glob_match("a*z", "aXYZz"));
    assert!(!glob_match("a*z", "abzq"));
}

#[test]
fn quote_after_expansion_prevents_globbing() {
    let s = shell_with(&[]);
    let fields = expand_single("\"*\"", &s);
    assert_eq!(fields, vec!["*"]);
}

#[test]
fn unquoted_wildcard_field_is_a_pattern() {
    let s = shell_with(&[]);
    match fields_of(expand_word("*.rs", &s, &vec![]).unwrap()).as_slice() {
        [Field::Pattern(p)] => assert_eq!(p, "*.rs"),
        _ => panic!("expected one pattern"),
    }
    match fields_of(expand_word("\"*.rs\"", &s, &vec![]).unwrap()).as_slice() {
        [Field::Word(w)] => assert_eq!(w, "*.rs"),
        _ => panic!("expected one word"),
    }
}

#[test]
fn command_word_is_never_globbed() {
    let s = shell_with(&[]);
    match fields_of(expand_cmd_word("*.rs", &s, &vec![]).unwrap()).as_slice() {
        [Field::Word(w)] => assert_eq!(w, "*.rs"),
        _ => panic!("expected one word"),
    }
}

#[test]
fn glob_matches_replace_the_pattern() {
    let fields = vec![
        Field::Word("ls".to_string()),
        Field::Pattern("*.rs".to_string()),
        Field::Pattern("*.md".to_string()),
    ];
    let globbed = vec![
        vec![],
        vec!["a.rs".to_string(), "b.rs".to_string()],
        vec![],
    ];
    assert_eq!(
        assemble_fields(fields, &globbed),
        vec!["ls", "a.rs", "b.rs", "*.md"]
    );
}

#[test]
fn command_substitution_asks_for_its_output() {
    let s = shell_with(&[]);
    match expand_word("a$(echo hi)b", &s, &vec![]).unwrap() {
        WordStep::NeedSubstitution(cmd) => assert_eq!(cmd, "echo hi"),
        WordStep::Done(_) => panic!("expected a substitution"),
    }
    let outputs = vec!["x y".to_string()];
    let fields = fields_of(expand_word("a$(echo hi)b", &s, &outputs).unwrap());
    let none = vec![Vec::new(); fields.len()];
    assert_eq!(assemble_fields(fields, &none), vec!["ax", "yb"]);
    let quoted = fields_of(expand_word("\"$(echo hi)\"", &s, &outputs).unwrap());
    let none = vec![Vec::new(); quoted.len()];
    assert_eq!(assemble_fields(quoted, &none), vec!["x y"]);
}

#[test]
fn substitutions_are_used_in_order_across_words() {
    let s = shell_with(&[]);
    let words = vec!["$(a)".to_string(), "$(b)".to_string()];
    match expand_wordlist(&words, &s, &vec!["1".to_string()]).unwrap() {
        WordStep::NeedSubstitution(cmd) => assert_eq!(cmd, "b"),
        WordStep::Done(_) => panic!("expected the second substitution"),
    }
    let fields = fields_of(
        expand_wordlist(&words, &s, &vec!["1".to_string(), "2".to_string()]).unwrap(),
    );
    let none = vec![Vec::new(); fields.len()];
    assert_eq!(assemble_fields(fields, &none), vec!["1", "2"]);
}

#[test]
fn expansion_errors_are_reported() {
    let s = shell_with(&[]);
    let e = expand_word("'abc", &s, &vec![]).err().unwrap();
    assert_eq!(e, ShellError::eval("unclosed single quote"));
    let e = expand_word("\"abc", &s, &vec![]).err().unwrap();
    assert_eq!(e, ShellError::eval("unclosed double quote"));
    let e = expand_word("$((1/0))", &s, &vec![]).err().unwrap();
    assert_eq!(e, ShellError::eval("division by zero"));
    let e = expand_word("${X", &s, &vec![]).err().unwrap();
    assert_eq!(e, ShellError::eval("unclosed ${"));
    assert_eq!(e.describe(), "shell: unclosed ${");
}

#[test]
fn brace_ranges_count_down_and_over_letters() {
    assert_eq!(brace_expand("{3..1}"), vec!["3", "2", "1"]);
    assert_eq!(brace_expand("{a..c}"), vec!["a", "b", "c"]);
    assert_eq!(brace_expand("{-1..1}"), vec!["-1", "0", "1"]);
    assert_eq!(brace_expand("{1,3}"), vec!["1", "2", "3"]);
    assert_eq!(brace_expand("{a..C}"), vec!["a..C"]);
}

#[test]
fn nested_and_unmatched_braces() {
    assert_eq!(brace_expand("a{b,{c,d}}e"), vec!["abe", "ace", "ade"]);
    assert_eq!(brace_expand("x{a,b"), vec!["x{a,b"]);
    assert_eq!(brace_expand("${X}"), vec!["${X}"]);
    assert_eq!(brace_expand("{a,b}{1,2}"), vec!["a1", "a2", "b1", "b2"]);
}

#[test]
fn range_limits() {
    assert!(expand_range("1", "100001").is_none());
    assert!(expand_range("100001", "1").is_none());
    assert_eq!(expand_range("1", "100000").unwrap().len(), 100000);
    assert_eq!(expand_range("b", "b").unwrap(), vec!["b"]);
    assert!(expand_range("b", "a").is_none());
    assert!(!brace_expansion_safe("{9223372036854775806..9223372036854775807}"));
    assert!(brace_expansion_safe("{1..5}"));
}

#[test]
fn dots_split_at_the_first_pair() {
    let (a, b) = split_once_dots("1..2..3").unwrap();
    assert_eq!(a, "1");
    assert_eq!(b, "2..3");
    assert!(split_once_dots("1.2").is_none());
}

#[test]
fn meta_characters() {
    assert!(has_meta("a*"));
    assert!(has_meta("?"));
    assert!(has_meta("[x]"));
    assert!(!has_meta("plain"));
}

#[test]
fn field_split_keeps_quoted_blanks() {
    let e = Expanded {
        text: " a b ".to_string(),
        quoted: vec![false, false, true, false, false],
    };
    let fields = field_split(&e);
    let texts: Vec<String> = fields.iter().map(|f| f.text.clone()).collect();
    assert_eq!(texts, vec!["a b"]);
    let blank = Expanded {
        text: "  ".to_string(),
        quoted: vec![false, false],
    };
    let fields = field_split(&blank);
    assert_eq!(fields.len(), 1);
    assert_eq!(fields[0].text, "");
}
