use vstd::prelude::*;

use crate::error::{ErrorV, ShellError};
use crate::text::{chars_of, string_of_range};
use crate::token::{Token, TokenType, TokenV, tokens_view};

verus! {

// ---------------------------------------------------------------------------
// Character classes
// ---------------------------------------------------------------------------

pub open spec fn is_blank(c: char) -> bool {
    c == ' ' || c == '\t'
}

pub open spec fn is_operator(c: char) -> bool {
    c == '|' || c == '&' || c == ';' || c == '<' || c == '>' || c == '(' || c == ')'
}

pub open spec fn is_alpha(c: char) -> bool {
    ('a' <= c && c <= 'z') || ('A' <= c && c <= 'Z')
}

pub open spec fn is_digit(c: char) -> bool {
    '0' <= c && c <= '9'
}

pub open spec fn is_ident_start(c: char) -> bool {
    is_alpha(c) || c == '_'
}

pub open spec fn is_ident_cont(c: char) -> bool {
    is_alpha(c) || is_digit(c) || c == '_'
}

/// The one-character special parameters `$?`, `$$`, `$!`, `$*` and `$@`.
pub open spec fn is_special_param(c: char) -> bool {
    c == '?' || c == '$' || c == '!' || c == '*' || c == '@'
}

fn is_operator_char(c: char) -> (r: bool)
    ensures
        r == is_operator(c),
{
    c == '|' || c == '&' || c == ';' || c == '<' || c == '>' || c == '(' || c == ')'
}

pub fn is_ascii_alpha(c: char) -> (r: bool)
    ensures
        r == is_alpha(c),
{
    ('a' <= c && c <= 'z') || ('A' <= c && c <= 'Z')
}

pub fn is_ascii_digit(c: char) -> (r: bool)
    ensures
        r == is_digit(c),
{
    '0' <= c && c <= '9'
}

fn is_identifier_start(c: char) -> (r: bool)
    ensures
        r == is_ident_start(c),
{
    is_ascii_alpha(c) || c == '_'
}

pub fn is_identifier_cont(c: char) -> (r: bool)
    ensures
        r == is_ident_cont(c),
{
    is_ascii_alpha(c) || is_ascii_digit(c) || c == '_'
}

// ---------------------------------------------------------------------------
// Scanning: the mathematical definitions
// ---------------------------------------------------------------------------

/// The character at `i`, if any.
pub open spec fn char_at(src: Seq<char>, i: int) -> Option<char> {
    if 0 <= i < src.len() {
        Some(src[i])
    } else {
        None
    }
}

/// Index of the `)` that closes a parenthesis opened before `i`, with
/// `depth` parentheses open; `src.len()` when none closes it.
pub open spec fn paren_close(src: Seq<char>, i: int, depth: int) -> int
    decreases src.len() - i,
{
    if i >= src.len() {
        src.len() as int
    } else if src[i] == '(' {
        paren_close(src, i + 1, depth + 1)
    } else if src[i] == ')' {
        if depth <= 1 {
            i
        } else {
            paren_close(src, i + 1, depth - 1)
        }
    } else {
        paren_close(src, i + 1, depth)
    }
}

/// Index of the `}` that closes a brace opened before `i`, with `depth`
/// braces open; `src.len()` when none closes it.
pub open spec fn brace_close(src: Seq<char>, i: int, depth: int) -> int
    decreases src.len() - i,
{
    if i >= src.len() {
        src.len() as int
    } else if src[i] == '{' {
        brace_close(src, i + 1, depth + 1)
    } else if src[i] == '}' {
        if depth <= 1 {
            i
        } else {
            brace_close(src, i + 1, depth - 1)
        }
    } else {
        brace_close(src, i + 1, depth)
    }
}

pub proof fn lemma_paren_close_bounds(src: Seq<char>, i: int, depth: int)
    requires
        0 <= i <= src.len(),
    ensures
        i <= paren_close(src, i, depth) <= src.len(),
        paren_close(src, i, depth) < src.len() ==> src[paren_close(src, i, depth)] == ')',
    decreases src.len() - i,
{
    if i < src.len() {
        if src[i] == '(' {
            lemma_paren_close_bounds(src, i + 1, depth + 1);
        } else if src[i] == ')' {
            if depth > 1 {
                lemma_paren_close_bounds(src, i + 1, depth - 1);
            }
        } else {
            lemma_paren_close_bounds(src, i + 1, depth);
        }
    }
}

pub proof fn lemma_brace_close_bounds(src: Seq<char>, i: int, depth: int)
    requires
        0 <= i <= src.len(),
    ensures
        i <= brace_close(src, i, depth) <= src.len(),
    decreases src.len() - i,
{
    if i < src.len() {
        if src[i] == '{' {
            lemma_brace_close_bounds(src, i + 1, depth + 1);
        } else if src[i] == '}' {
            if depth > 1 {
                lemma_brace_close_bounds(src, i + 1, depth - 1);
            }
        } else {
            lemma_brace_close_bounds(src, i + 1, depth);
        }
    }
}

/// Where a `$(...)` that starts at `i` ends inside a word: just past its
/// closing parenthesis, or at the end of the input when it is unclosed.
pub open spec fn subst_end(src: Seq<char>, i: int) -> int {
    let k = paren_close(src, i + 2, 1);
    if k < src.len() {
        k + 1
    } else {
        src.len() as int
    }
}

/// The state of the word scanner: position, inside single quotes, inside
/// double quotes, after a backslash, and whether any quoting was seen.
pub struct ScanState {
    pub pos: int,
    pub in_squote: bool,
    pub in_dquote: bool,
    pub escaped: bool,
    pub quoted: bool,
}

/// Scans a word from `i` until an unquoted blank or operator, or the end.
pub open spec fn word_scan(
    src: Seq<char>,
    i: int,
    in_s: bool,
    in_d: bool,
    esc: bool,
    quoted: bool,
) -> ScanState
    decreases src.len() - i,
{
    if i < 0 || i >= src.len() {
        ScanState { pos: i, in_squote: in_s, in_dquote: in_d, escaped: esc, quoted }
    } else {
        let c = src[i];
        if esc {
            word_scan(src, i + 1, in_s, in_d, false, quoted)
        } else if c == '\\' && !in_s {
            word_scan(src, i + 1, in_s, in_d, true, true)
        } else if c == '\'' && !in_d {
            word_scan(src, i + 1, !in_s, in_d, false, true)
        } else if c == '"' && !in_s {
            word_scan(src, i + 1, in_s, !in_d, false, true)
        } else if !in_s && !in_d && (is_operator(c) || is_blank(c)) {
            ScanState { pos: i, in_squote: in_s, in_dquote: in_d, escaped: esc, quoted }
        } else if !in_s && c == '$' && i + 1 < src.len() && src[i + 1] == '(' {
            proof {
                lemma_paren_close_bounds(src, i + 2, 1);
            }
            word_scan(src, subst_end(src, i), in_s, in_d, false, quoted)
        } else {
            word_scan(src, i + 1, in_s, in_d, false, quoted)
        }
    }
}

pub proof fn lemma_word_scan_bounds(
    src: Seq<char>,
    i: int,
    in_s: bool,
    in_d: bool,
    esc: bool,
    quoted: bool,
)
    requires
        0 <= i <= src.len(),
    ensures
        i <= word_scan(src, i, in_s, in_d, esc, quoted).pos <= src.len(),
        word_scan(src, i, in_s, in_d, esc, quoted).pos < src.len() ==> {
            let s = word_scan(src, i, in_s, in_d, esc, quoted);
            !s.in_squote && !s.in_dquote && !s.escaped
        },
    decreases src.len() - i,
{
    if i < src.len() {
        let c = src[i];
        if esc {
            lemma_word_scan_bounds(src, i + 1, in_s, in_d, false, quoted);
        } else if c == '\\' && !in_s {
            lemma_word_scan_bounds(src, i + 1, in_s, in_d, true, true);
        } else if c == '\'' && !in_d {
            lemma_word_scan_bounds(src, i + 1, !in_s, in_d, false, true);
        } else if c == '"' && !in_s {
            lemma_word_scan_bounds(src, i + 1, in_s, !in_d, false, true);
        } else if !in_s && !in_d && (is_operator(c) || is_blank(c)) {
        } else if !in_s && c == '$' && i + 1 < src.len() && src[i + 1] == '(' {
            lemma_paren_close_bounds(src, i + 2, 1);
            lemma_word_scan_bounds(src, subst_end(src, i), in_s, in_d, false, quoted);
        } else {
            lemma_word_scan_bounds(src, i + 1, in_s, in_d, false, quoted);
        }
    }
}

/// A word of the command line: an assignment when it has the form
/// `NAME=...` with `NAME` an identifier.
pub open spec fn is_assignment(w: Seq<char>) -> bool {
    exists|k: int|
        0 < k < w.len() && #[trigger] w[k] == '=' && is_ident_start(w[0]) && (forall|j: int|
            1 <= j < k ==> #[trigger] is_ident_cont(w[j]))
}

/// The result of reading a word at `pos`: its raw text, whether quoting
/// occurred in it, and where it ends.
pub open spec fn read_word_spec(src: Seq<char>, pos: int) -> Result<(Seq<char>, bool, int), ErrorV> {
    let s = word_scan(src, pos, false, false, false, false);
    if s.in_squote || s.in_dquote {
        Err(ErrorV::Lex { message: "unclosed quote"@, column: s.pos + 1 })
    } else if s.escaped {
        Err(ErrorV::Lex { message: "trailing escape"@, column: s.pos + 1 })
    } else {
        Ok((src.subrange(pos, s.pos), s.quoted, s.pos))
    }
}

/// The end of the variable name that starts at `i`: one digit, an
/// identifier, or one special parameter character.
pub open spec fn ident_end(src: Seq<char>, i: int) -> int
    decreases src.len() - i,
{
    if 0 <= i < src.len() && is_ident_cont(src[i]) {
        ident_end(src, i + 1)
    } else {
        i
    }
}

pub open spec fn var_name_end(src: Seq<char>, start: int) -> Option<int> {
    if start < 0 || start >= src.len() {
        None
    } else if is_digit(src[start]) {
        Some(start + 1)
    } else if is_ident_start(src[start]) {
        Some(ident_end(src, start + 1))
    } else if is_special_param(src[start]) {
        Some(start + 1)
    } else {
        None
    }
}

pub proof fn lemma_ident_end_bounds(src: Seq<char>, i: int)
    requires
        0 <= i <= src.len(),
    ensures
        i <= ident_end(src, i) <= src.len(),
    decreases src.len() - i,
{
    if i < src.len() && is_ident_cont(src[i]) {
        lemma_ident_end_bounds(src, i + 1);
    }
}

pub open spec fn op_tok(t: TokenType) -> TokenV {
    TokenV { type_: t, value: None, quoted: false }
}

pub open spec fn value_tok(t: TokenType, v: Seq<char>) -> TokenV {
    TokenV { type_: t, value: Some(v), quoted: false }
}

/// The token for a word: an assignment or a plain word.
pub open spec fn word_tok(w: Seq<char>, quoted: bool) -> TokenV {
    TokenV {
        type_: if is_assignment(w) {
            TokenType::Assign
        } else {
            TokenType::Word
        },
        value: Some(w),
        quoted,
    }
}

pub open spec fn word_step(src: Seq<char>, pos: int) -> Result<(Option<TokenV>, int), ErrorV> {
    match read_word_spec(src, pos) {
        Err(e) => Err(e),
        Ok((w, q, after)) => Ok((Some(word_tok(w, q)), after)),
    }
}

/// One step of the lexer at `pos`: the token it produces, if any, and the
/// position where lexing goes on, or the error it reports.
pub open spec fn lex_step(src: Seq<char>, pos: int) -> Result<(Option<TokenV>, int), ErrorV> {
    let len = src.len() as int;
    let c = src[pos];
    let next = char_at(src, pos + 1);
    let next2 = char_at(src, pos + 2);
    if is_blank(c) {
        Ok((None, pos + 1))
    } else if c == '#' && (pos == 0 || is_blank(src[pos - 1])) {
        Ok((None, len))
    } else if c == '|' && next == Some('|') {
        Ok((Some(op_tok(TokenType::Or)), pos + 2))
    } else if c == '|' {
        Ok((Some(op_tok(TokenType::Pipe)), pos + 1))
    } else if c == '&' && next == Some('&') {
        Ok((Some(op_tok(TokenType::And)), pos + 2))
    } else if c == ';' {
        Ok((Some(op_tok(TokenType::Semicolon)), pos + 1))
    } else if c == '&' && next == Some('>') {
        Ok((Some(op_tok(TokenType::RedirectBothOut)), pos + 2))
    } else if c == '>' && next == Some('>') {
        Ok((Some(op_tok(TokenType::RedirectAppend)), pos + 2))
    } else if c == '>' && next == Some('|') {
        Ok((Some(op_tok(TokenType::RedirectClobber)), pos + 2))
    } else if c == '<' && next == Some('<') && next2 == Some('-') {
        Ok((Some(op_tok(TokenType::RedirectHeredocTab)), pos + 3))
    } else if c == '<' && next == Some('<') {
        Ok((Some(op_tok(TokenType::RedirectHeredoc)), pos + 2))
    } else if c == '<' {
        Ok((Some(op_tok(TokenType::RedirectIn)), pos + 1))
    } else if c == '>' {
        Ok((Some(op_tok(TokenType::RedirectOut)), pos + 1))
    } else if c == '&' {
        Ok((Some(op_tok(TokenType::Background)), pos + 1))
    } else if c == '$' && next == Some('(') && next2 == Some('(') {
        let close = paren_close(src, pos + 3, 1);
        if close >= len {
            Err(ErrorV::Lex { message: "unfinished $(( expression"@, column: len })
        } else if char_at(src, close + 1) is Some && !is_blank(src[close + 1]) && !is_operator(
            src[close + 1],
        ) {
            word_step(src, pos)
        } else {
            Ok((Some(value_tok(TokenType::Arith, src.subrange(pos + 3, close))), close + 2))
        }
    } else if c == '$' && next == Some('(') {
        let close = paren_close(src, pos + 2, 1);
        if close >= len {
            Err(ErrorV::Lex { message: "unfinished $("@, column: len })
        } else if char_at(src, close + 1) is Some && !is_blank(src[close + 1]) && !is_operator(
            src[close + 1],
        ) {
            word_step(src, pos)
        } else {
            Ok((Some(value_tok(TokenType::Word, src.subrange(pos, close + 1))), close + 1))
        }
    } else if c == '$' && next == Some('{') {
        let close = brace_close(src, pos + 2, 1);
        if close >= len {
            Err(ErrorV::Lex { message: "unclosed ${"@, column: pos + 3 })
        } else {
            Ok((Some(value_tok(TokenType::VarBrace, src.subrange(pos + 2, close))), close + 1))
        }
    } else if c == '$' && var_name_end(src, pos + 1) is Some {
        let end = var_name_end(src, pos + 1)->0;
        Ok((Some(value_tok(TokenType::Var, src.subrange(pos + 1, end))), end))
    } else if c == '(' {
        Ok((Some(op_tok(TokenType::GroupOpen)), pos + 1))
    } else if c == ')' {
        Ok((Some(op_tok(TokenType::GroupClose)), pos + 1))
    } else {
        word_step(src, pos)
    }
}

pub proof fn lemma_word_advances(src: Seq<char>, pos: int)
    requires
        0 <= pos < src.len(),
        !is_blank(src[pos]),
        !is_operator(src[pos]),
    ensures
        word_scan(src, pos, false, false, false, false).pos > pos,
{
    let c = src[pos];
    if c == '\\' {
        lemma_word_scan_bounds(src, pos + 1, false, false, true, true);
    } else if c == '\'' {
        lemma_word_scan_bounds(src, pos + 1, true, false, false, true);
    } else if c == '"' {
        lemma_word_scan_bounds(src, pos + 1, false, true, false, true);
    } else if c == '$' && pos + 1 < src.len() && src[pos + 1] == '(' {
        lemma_paren_close_bounds(src, pos + 2, 1);
        lemma_word_scan_bounds(src, subst_end(src, pos), false, false, false, false);
    } else {
        lemma_word_scan_bounds(src, pos + 1, false, false, false, false);
    }
}

pub proof fn lemma_lex_step_advances(src: Seq<char>, pos: int)
    requires
        0 <= pos < src.len(),
    ensures
        lex_step(src, pos) matches Ok((_, n)) ==> pos < n <= src.len() + 1,
{
    let c = src[pos];
    lemma_word_scan_bounds(src, pos, false, false, false, false);
    if c == '$' {
        lemma_word_advances(src, pos);
        if pos + 3 <= src.len() {
            lemma_paren_close_bounds(src, pos + 3, 1);
        }
        if pos + 2 <= src.len() {
            lemma_paren_close_bounds(src, pos + 2, 1);
            lemma_brace_close_bounds(src, pos + 2, 1);
            lemma_ident_end_bounds(src, pos + 2);
        }
    } else if !is_blank(c) && !is_operator(c) {
        lemma_word_advances(src, pos);
    }
}

/// The tokens of `src` from `pos` on, or the first error met.
pub open spec fn lex_from(src: Seq<char>, pos: int) -> Result<Seq<TokenV>, ErrorV>
    decreases src.len() + 1 - pos,
{
    if pos < 0 || pos >= src.len() {
        Ok(Seq::empty())
    } else {
        match lex_step(src, pos) {
            Err(e) => Err(e),
            Ok((t, next)) => {
                proof {
                    lemma_lex_step_advances(src, pos);
                }
                match lex_from(src, next) {
                    Err(e) => Err(e),
                    Ok(rest) => Ok(
                        match t {
                            Some(tok) => seq![tok] + rest,
                            None => rest,
                        },
                    ),
                }
            },
        }
    }
}

/// The tokens of a whole line.
pub open spec fn lex(src: Seq<char>) -> Result<Seq<TokenV>, ErrorV> {
    lex_from(src, 0)
}

pub open spec fn prepend(done: Seq<TokenV>, r: Result<Seq<TokenV>, ErrorV>) -> Result<Seq<TokenV>, ErrorV> {
    match r {
        Ok(rest) => Ok(done + rest),
        Err(e) => Err(e),
    }
}

pub open spec fn opt_tok_view(t: Option<Token>) -> Option<TokenV> {
    match t {
        Some(tok) => Some(tok@),
        None => None,
    }
}

pub open spec fn step_view(r: Result<(Option<Token>, usize), ShellError>) -> Result<(Option<TokenV>, int), ErrorV> {
    match r {
        Ok((t, n)) => Ok((opt_tok_view(t), n as int)),
        Err(e) => Err(e@),
    }
}

pub open spec fn word_view(r: Result<(String, bool, usize), ShellError>) -> Result<(Seq<char>, bool, int), ErrorV> {
    match r {
        Ok((w, q, n)) => Ok((w@, q, n as int)),
        Err(e) => Err(e@),
    }
}

pub open spec fn tokens_result_view(r: Result<Vec<Token>, ShellError>) -> Result<Seq<TokenV>, ErrorV> {
    match r {
        Ok(v) => Ok(tokens_view(v@)),
        Err(e) => Err(e@),
    }
}

// ---------------------------------------------------------------------------
// Scanning: the executable code
// ---------------------------------------------------------------------------

fn word_continues_at(src: &Vec<char>, idx: usize) -> (r: bool)
    ensures
        r == (char_at(src@, idx as int) is Some && !is_blank(src@[idx as int]) && !is_operator(
            src@[idx as int],
        )),
{
    if idx >= src.len() {
        return false;
    }
    let c = src[idx];
    !(c == ' ' || c == '\t' || is_operator_char(c))
}

/// Finds the parenthesis that closes one opened just before `start`.
fn close_paren(src: &Vec<char>, start: usize) -> (r: usize)
    requires
        start <= src@.len() < usize::MAX,
    ensures
        r == paren_close(src@, start as int, 1),
{
    let mut depth: usize = 1;
    let mut i = start;
    while i < src.len()
        invariant
            start <= i <= src@.len() < usize::MAX,
            1 <= depth <= i - start + 1,
            paren_close(src@, start as int, 1) == paren_close(src@, i as int, depth as int),
        decreases src@.len() - i,
    {
        let c = src[i];
        if c == '(' {
            depth += 1;
        } else if c == ')' {
            if depth == 1 {
                return i;
            }
            depth -= 1;
        }
        i += 1;
    }
    i
}

/// Finds the brace that closes one opened just before `start`.
fn close_brace(src: &Vec<char>, start: usize) -> (r: usize)
    requires
        start <= src@.len() < usize::MAX,
    ensures
        r == brace_close(src@, start as int, 1),
{
    let mut depth: usize = 1;
    let mut i = start;
    while i < src.len()
        invariant
            start <= i <= src@.len() < usize::MAX,
            1 <= depth <= i - start + 1,
            brace_close(src@, start as int, 1) == brace_close(src@, i as int, depth as int),
        decreases src@.len() - i,
    {
        let c = src[i];
        if c == '{' {
            depth += 1;
        } else if c == '}' {
            if depth == 1 {
                return i;
            }
            depth -= 1;
        }
        i += 1;
    }
    i
}

/// Reads a variable name after a `$`: one digit, an identifier, or one
/// special parameter character.
fn read_variable_name(src: &Vec<char>, start: usize) -> (r: Option<(String, usize)>)
    requires
        src@.len() < usize::MAX,
    ensures
        match var_name_end(src@, start as int) {
            None => r is None,
            Some(end) => r matches Some((name, e)) && e == end && name@ == src@.subrange(
                start as int,
                end,
            ),
        },
{
    if start >= src.len() {
        return None;
    }
    let c = src[start];
    if is_ascii_digit(c) {
        return Some((string_of_range(src, start, start + 1), start + 1));
    }
    if is_identifier_start(c) {
        let mut end = start + 1;
        while end < src.len() && is_identifier_cont(src[end])
            invariant
                start < end <= src@.len(),
                ident_end(src@, start as int + 1) == ident_end(src@, end as int),
            decreases src@.len() - end,
        {
            end += 1;
        }
        return Some((string_of_range(src, start, end), end));
    }
    if c == '?' || c == '$' || c == '!' || c == '*' || c == '@' {
        return Some((string_of_range(src, start, start + 1), start + 1));
    }
    None
}

/// Reads the name of a `${...}` whose text starts at `start`.
fn read_braced_variable(src: &Vec<char>, start: usize) -> (r: Result<(String, usize), ShellError>)
    requires
        start <= src@.len() < usize::MAX,
    ensures
        ({
            let close = brace_close(src@, start as int, 1);
            if close >= src@.len() {
                r matches Err(e) && e@ == (ErrorV::Lex {
                    message: "unclosed ${"@,
                    column: start + 1,
                })
            } else {
                r matches Ok((name, after)) && name@ == src@.subrange(start as int, close)
                    && after == close + 1
            }
        }),
{
    let close = close_brace(src, start);
    proof {
        lemma_brace_close_bounds(src@, start as int, 1);
    }
    if close < src.len() {
        Ok((string_of_range(src, start, close), close + 1))
    } else {
        Err(ShellError::lex("unclosed ${", start + 1))
    }
}

/// Reads a word starting at `pos`, keeping its quotes and escapes.
fn read_word(src: &Vec<char>, pos: usize) -> (r: Result<(String, bool, usize), ShellError>)
    requires
        pos <= src@.len() < usize::MAX,
    ensures
        word_view(r) == read_word_spec(src@, pos as int),
{
    let mut in_squote = false;
    let mut in_dquote = false;
    let mut escaped = false;
    let mut quoted = false;
    let mut i = pos;

    while i < src.len()
        invariant
            pos <= i <= src@.len() < usize::MAX,
            word_scan(src@, pos as int, false, false, false, false) == word_scan(
                src@,
                i as int,
                in_squote,
                in_dquote,
                escaped,
                quoted,
            ),
        ensures
            pos <= i <= src@.len(),
            word_scan(src@, pos as int, false, false, false, false) == (ScanState {
                pos: i as int,
                in_squote,
                in_dquote,
                escaped,
                quoted,
            }),
        decreases src@.len() - i,
    {
        let c = src[i];
        if escaped {
            escaped = false;
            i += 1;
            continue;
        }
        if c == '\\' && !in_squote {
            escaped = true;
            quoted = true;
            i += 1;
            continue;
        }
        if c == '\'' && !in_dquote {
            in_squote = !in_squote;
            quoted = true;
            i += 1;
            continue;
        }
        if c == '"' && !in_squote {
            in_dquote = !in_dquote;
            quoted = true;
            i += 1;
            continue;
        }
        if !in_squote && !in_dquote && (is_operator_char(c) || c == ' ' || c == '\t') {
            break;
        }
        if !in_squote && c == '$' && i + 1 < src.len() && src[i + 1] == '(' {
            let k = close_paren(src, i + 2);
            proof {
                lemma_paren_close_bounds(src@, i + 2, 1);
            }
            i = if k < src.len() {
                k + 1
            } else {
                src.len()
            };
            continue;
        }
        i += 1;
    }

    if in_squote || in_dquote {
        return Err(ShellError::lex("unclosed quote", i + 1));
    }
    if escaped {
        return Err(ShellError::lex("trailing escape", i + 1));
    }
    Ok((string_of_range(src, pos, i), quoted, i))
}

/// Tells whether `src[lo..hi]` has the form `NAME=...`.
fn is_assignment_word(src: &Vec<char>, lo: usize, hi: usize) -> (r: bool)
    requires
        lo <= hi <= src@.len(),
    ensures
        r == is_assignment(src@.subrange(lo as int, hi as int)),
{
    let ghost w = src@.subrange(lo as int, hi as int);
    if lo >= hi || !is_identifier_start(src[lo]) {
        return false;
    }
    let mut i = lo + 1;
    while i < hi
        invariant
            lo < i <= hi <= src@.len(),
            w == src@.subrange(lo as int, hi as int),
            is_ident_start(w[0]),
            forall|j: int| 1 <= j < i - lo ==> #[trigger] is_ident_cont(w[j]),
        decreases hi - i,
    {
        let c = src[i];
        if c == '=' {
            assert(w[i - lo] == '=');
            return true;
        }
        if !is_identifier_cont(c) {
            assert forall|k: int|
                0 < k < w.len() && #[trigger] w[k] == '=' && is_ident_start(w[0]) implies !(forall|j: int|
                1 <= j < k ==> #[trigger] is_ident_cont(w[j])) by {
                if k > i - lo {
                    assert(is_ident_cont(w[i - lo]) == false);
                } else {
                    if k < i - lo {
                        assert(is_ident_cont(w[k]));
                    }
                }
            }
            return false;
        }
        i += 1;
    }
    assert forall|k: int|
        0 < k < w.len() && #[trigger] w[k] == '=' && is_ident_start(w[0]) implies !(forall|j: int|
        1 <= j < k ==> #[trigger] is_ident_cont(w[j])) by {
        assert(is_ident_cont(w[k]));
    }
    false
}

fn op_token(type_: TokenType) -> (t: Token)
    ensures
        t@ == op_tok(type_),
{
    Token { type_, value: None, quoted: false }
}

fn value_token(type_: TokenType, value: String) -> (t: Token)
    ensures
        t@ == value_tok(type_, value@),
{
    Token { type_, value: Some(value), quoted: false }
}

/// Reads the word at `pos` as a token.
fn word_token(src: &Vec<char>, pos: usize) -> (r: Result<(Option<Token>, usize), ShellError>)
    requires
        pos <= src@.len() < usize::MAX,
    ensures
        step_view(r) == word_step(src@, pos as int),
{
    let (word, quoted, after) = read_word(src, pos)?;
    proof {
        lemma_word_scan_bounds(src@, pos as int, false, false, false, false);
    }
    let type_ = if is_assignment_word(src, pos, after) {
        TokenType::Assign
    } else {
        TokenType::Word
    };
    Ok((Some(Token { type_, value: Some(word), quoted }), after))
}

fn lex_step_exec(src: &Vec<char>, pos: usize) -> (r: Result<(Option<Token>, usize), ShellError>)
    requires
        pos < src@.len() < usize::MAX,
    ensures
        step_view(r) == lex_step(src@, pos as int),
{
    let len = src.len();
    let c = src[pos];
    let next = if pos + 1 < len {
        Some(src[pos + 1])
    } else {
        None
    };
    let next2 = if pos + 2 < len {
        Some(src[pos + 2])
    } else {
        None
    };
    assert(next == char_at(src@, pos + 1));
    assert(next2 == char_at(src@, pos + 2));

    if c == ' ' || c == '\t' {
        return Ok((None, pos + 1));
    }
    if c == '#' && (pos == 0 || src[pos - 1] == ' ' || src[pos - 1] == '\t') {
        return Ok((None, len));
    }
    if c == '|' && next == Some('|') {
        return Ok((Some(op_token(TokenType::Or)), pos + 2));
    }
    if c == '|' {
        return Ok((Some(op_token(TokenType::Pipe)), pos + 1));
    }
    if c == '&' && next == Some('&') {
        return Ok((Some(op_token(TokenType::And)), pos + 2));
    }
    if c == ';' {
        return Ok((Some(op_token(TokenType::Semicolon)), pos + 1));
    }
    if c == '&' && next == Some('>') {
        return Ok((Some(op_token(TokenType::RedirectBothOut)), pos + 2));
    }
    if c == '>' && next == Some('>') {
        return Ok((Some(op_token(TokenType::RedirectAppend)), pos + 2));
    }
    if c == '>' && next == Some('|') {
        return Ok((Some(op_token(TokenType::RedirectClobber)), pos + 2));
    }
    if c == '<' && next == Some('<') && next2 == Some('-') {
        return Ok((Some(op_token(TokenType::RedirectHeredocTab)), pos + 3));
    }
    if c == '<' && next == Some('<') {
        return Ok((Some(op_token(TokenType::RedirectHeredoc)), pos + 2));
    }
    if c == '<' {
        return Ok((Some(op_token(TokenType::RedirectIn)), pos + 1));
    }
    if c == '>' {
        return Ok((Some(op_token(TokenType::RedirectOut)), pos + 1));
    }
    if c == '&' && next != Some('&') {
        return Ok((Some(op_token(TokenType::Background)), pos + 1));
    }
    if c == '$' && next == Some('(') && next2 == Some('(') {
        let close = close_paren(src, pos + 3);
        proof {
            lemma_paren_close_bounds(src@, pos + 3, 1);
        }
        if close >= len {
            return Err(ShellError::lex("unfinished $(( expression", len));
        }
        if word_continues_at(src, close + 1) {
            return word_token(src, pos);
        }
        let expr = string_of_range(src, pos + 3, close);
        return Ok((Some(value_token(TokenType::Arith, expr)), close + 2));
    }
    if c == '$' && next == Some('(') {
        let close = close_paren(src, pos + 2);
        proof {
            lemma_paren_close_bounds(src@, pos + 2, 1);
        }
        if close >= len {
            return Err(ShellError::lex("unfinished $(", len));
        }
        if word_continues_at(src, close + 1) {
            return word_token(src, pos);
        }
        let full = string_of_range(src, pos, close + 1);
        return Ok((Some(value_token(TokenType::Word, full)), close + 1));
    }
    if c == '$' {
        if next == Some('{') {
            let (var, after) = read_braced_variable(src, pos + 2)?;
            return Ok((Some(value_token(TokenType::VarBrace, var)), after));
        }
        if let Some((name, after)) = read_variable_name(src, pos + 1) {
            return Ok((Some(value_token(TokenType::Var, name)), after));
        }
    }
    if c == '(' {
        return Ok((Some(op_token(TokenType::GroupOpen)), pos + 1));
    }
    if c == ')' {
        return Ok((Some(op_token(TokenType::GroupClose)), pos + 1));
    }
    word_token(src, pos)
}

/// Splits a command line into tokens.
pub fn tokenize(line: &str) -> (r: Result<Vec<Token>, ShellError>)
    requires
        line@.len() < usize::MAX,
    ensures
        tokens_result_view(r) == lex(line@),
{
    let src = chars_of(line);
    let len = src.len();
    let mut tokens: Vec<Token> = Vec::new();
    let mut pos = 0usize;
    assert(tokens_view(tokens@) =~= Seq::<TokenV>::empty());

    while pos < len
        invariant
            len == src@.len(),
            src@ == line@,
            len < usize::MAX,
            pos <= len + 1,
            lex(src@) == prepend(tokens_view(tokens@), lex_from(src@, pos as int)),
        decreases len + 1 - pos,
    {
        let ghost old_view = tokens_view(tokens@);
        proof {
            lemma_lex_step_advances(src@, pos as int);
        }
        let (tok, next) = match lex_step_exec(&src, pos) {
            Ok(step) => step,
            Err(e) => {
                assert(lex_from(src@, pos as int) == Err::<Seq<TokenV>, ErrorV>(e@));
                return Err(e);
            },
        };
        match tok {
            Some(t) => {
                tokens.push(t);
                assert(tokens_view(tokens@) =~= old_view.push(t@));
                assert forall|rest: Seq<TokenV>|
                    old_view + (seq![t@] + rest) == #[trigger] (old_view.push(t@) + rest) by {
                    assert(old_view + (seq![t@] + rest) =~= old_view.push(t@) + rest);
                }
            },
            None => {
                assert(tokens_view(tokens@) =~= old_view);
            },
        }
        pos = next;
    }
    assert(tokens_view(tokens@) + Seq::<TokenV>::empty() =~= tokens_view(tokens@));
    Ok(tokens)
}

proof fn lemma_blanks_then(src: Seq<char>, pos: int, end: int)
    requires
        0 <= pos <= end <= src.len(),
        forall|i: int| pos <= i < end ==> is_blank(#[trigger] src[i]),
        end == src.len() || (src[end] == '#' && (end == 0 || is_blank(src[end - 1]))),
    ensures
        lex_from(src, pos) == Ok::<Seq<TokenV>, ErrorV>(Seq::empty()),
    decreases src.len() + 1 - pos,
{
    if pos < end {
        lemma_blanks_then(src, pos + 1, end);
    } else if pos < src.len() {
        assert(lex_from(src, src.len() as int) == Ok::<Seq<TokenV>, ErrorV>(Seq::empty()));
    }
}

/// A line of blanks, possibly followed by a comment, gives no token.
pub proof fn law_blank_or_comment_line_has_no_tokens(src: Seq<char>, end: int)
    requires
        0 <= end <= src.len(),
        forall|i: int| 0 <= i < end ==> is_blank(#[trigger] src[i]),
        end == src.len() || src[end] == '#',
    ensures
        lex(src) == Ok::<Seq<TokenV>, ErrorV>(Seq::empty()),
{
    lemma_blanks_then(src, 0, end);
}

/// The operator kinds: the tokens that carry no text.
pub open spec fn is_operator_kind(k: TokenType) -> bool {
    !(k is Word || k is Assign || k is Var || k is VarBrace || k is Arith)
}

/// What holds of every token the lexer makes: operators carry no text and
/// other kinds do; only words and assignments are marked quoted; words,
/// assignments and variables are never empty; and a word is an assignment
/// exactly when its text has the form `NAME=...`, `NAME` starting with a
/// letter or `_` and going on with letters, digits or `_`.
pub open spec fn token_ok(t: TokenV) -> bool {
    &&& (t.value is None <==> is_operator_kind(t.type_))
    &&& (t.quoted ==> (t.type_ is Word || t.type_ is Assign))
    &&& ((t.type_ is Word || t.type_ is Assign || t.type_ is Var) ==> t.text().len() > 0)
    &&& ((t.type_ is Word || t.type_ is Assign) ==> (t.type_ is Assign <==> is_assignment(
        t.text(),
    )))
}

/// A lexer error: its column lies between 1 and one past the last
/// character.
pub open spec fn lex_error_ok(e: ErrorV, len: int) -> bool {
    e matches ErrorV::Lex { column, .. } && 1 <= column <= len + 1
}

proof fn lemma_word_step_ok(src: Seq<char>, pos: int)
    requires
        0 <= pos < src.len(),
        !is_blank(src[pos]),
        !is_operator(src[pos]),
    ensures
        word_step(src, pos) matches Ok((Some(t), _)) ==> token_ok(t),
        word_step(src, pos) matches Ok((None, _)) ==> false,
        word_step(src, pos) matches Err(e) ==> lex_error_ok(e, src.len() as int),
{
    lemma_word_advances(src, pos);
    lemma_word_scan_bounds(src, pos, false, false, false, false);
}

proof fn lemma_lex_step_ok(src: Seq<char>, pos: int)
    requires
        0 <= pos < src.len(),
    ensures
        lex_step(src, pos) matches Ok((Some(t), _)) ==> token_ok(t),
        lex_step(src, pos) matches Err(e) ==> lex_error_ok(e, src.len() as int),
{
    let c = src[pos];
    if pos + 3 <= src.len() {
        lemma_paren_close_bounds(src, pos + 3, 1);
    }
    if pos + 2 <= src.len() {
        lemma_paren_close_bounds(src, pos + 2, 1);
        lemma_brace_close_bounds(src, pos + 2, 1);
        lemma_ident_end_bounds(src, pos + 2);
    }
    if !is_blank(c) && !is_operator(c) {
        lemma_word_step_ok(src, pos);
    }
}

proof fn lemma_lex_from_ok(src: Seq<char>, pos: int)
    requires
        0 <= pos <= src.len() + 1,
    ensures
        lex_from(src, pos) matches Ok(ts) ==> forall|i: int| 0 <= i < ts.len() ==> token_ok(
            #[trigger] ts[i],
        ),
        lex_from(src, pos) matches Err(e) ==> lex_error_ok(e, src.len() as int),
    decreases src.len() + 1 - pos,
{
    if pos < src.len() {
        lemma_lex_step_ok(src, pos);
        lemma_lex_step_advances(src, pos);
        if let Ok((t, next)) = lex_step(src, pos) {
            lemma_lex_from_ok(src, next);
            if let Ok(rest) = lex_from(src, next) {
                if let Some(tok) = t {
                    let ts = seq![tok] + rest;
                    assert forall|i: int| 0 <= i < ts.len() implies token_ok(#[trigger] ts[i]) by {
                        if i > 0 {
                            assert(ts[i] == rest[i - 1]);
                        }
                    }
                }
            }
        }
    }
}

/// Every token of a line is well formed (see `token_ok`), and every failure
/// of the lexer is a lexer error whose column lies in the line or just past
/// its end.
pub proof fn law_tokens_are_well_formed(src: Seq<char>)
    ensures
        lex(src) matches Ok(ts) ==> forall|i: int| 0 <= i < ts.len() ==> token_ok(#[trigger] ts[i]),
        lex(src) matches Err(e) ==> lex_error_ok(e, src.len() as int),
{
    lemma_lex_from_ok(src, 0);
}


/// A quote or a backslash.
pub open spec fn is_quoting(c: char) -> bool {
    c == '\'' || c == '"' || c == '\\'
}

/// Some character of `src[a..b]` is a quote or a backslash.
pub open spec fn quoting_in(src: Seq<char>, a: int, b: int) -> bool {
    exists|j: int| a <= j < b && is_quoting(#[trigger] src[j])
}

/// Some `$(` starts in `src[a..b]` and is followed by its `(` there.
pub open spec fn subst_in(src: Seq<char>, a: int, b: int) -> bool {
    exists|j: int| a <= j && j + 1 < b && #[trigger] src[j] == '$' && src[j + 1] == '('
}

proof fn lemma_word_scan_reads(
    src: Seq<char>,
    i: int,
    in_s: bool,
    in_d: bool,
    esc: bool,
    quoted: bool,
)
    requires
        0 <= i <= src.len(),
        in_s || in_d || esc ==> quoted,
    ensures
        ({
            let s = word_scan(src, i, in_s, in_d, esc, quoted);
            &&& s.pos < src.len() ==> is_operator(src[s.pos]) || is_blank(src[s.pos])
            &&& s.quoted ==> quoted || quoting_in(src, i, s.pos)
            &&& quoted ==> s.quoted
            &&& quoting_in(src, i, s.pos) && !subst_in(src, i, s.pos) ==> s.quoted
        }),
    decreases src.len() - i,
{
    lemma_word_scan_bounds(src, i, in_s, in_d, esc, quoted);
    if i < src.len() {
        let c = src[i];
        let s = word_scan(src, i, in_s, in_d, esc, quoted);
        if esc {
            lemma_word_scan_reads(src, i + 1, in_s, in_d, false, quoted);
        } else if c == '\\' && !in_s {
            lemma_word_scan_reads(src, i + 1, in_s, in_d, true, true);
            assert(is_quoting(src[i]));
        } else if c == '\'' && !in_d {
            lemma_word_scan_reads(src, i + 1, !in_s, in_d, false, true);
            assert(is_quoting(src[i]));
        } else if c == '"' && !in_s {
            lemma_word_scan_reads(src, i + 1, in_s, !in_d, false, true);
            assert(is_quoting(src[i]));
        } else if !in_s && !in_d && (is_operator(c) || is_blank(c)) {
            assert(s.pos == i);
            assert(!quoting_in(src, i, i));
        } else if !in_s && c == '$' && i + 1 < src.len() && src[i + 1] == '(' {
            lemma_paren_close_bounds(src, i + 2, 1);
            lemma_word_scan_reads(src, subst_end(src, i), in_s, in_d, false, quoted);
            lemma_word_scan_bounds(src, subst_end(src, i), in_s, in_d, false, quoted);
            assert(s.pos >= i + 2);
            assert(subst_in(src, i, s.pos));
            if quoting_in(src, subst_end(src, i), s.pos) {
                let j = choose|j: int| subst_end(src, i) <= j < s.pos && is_quoting(#[trigger] src[j]);
                assert(quoting_in(src, i, s.pos));
            }
        } else {
            lemma_word_scan_reads(src, i + 1, in_s, in_d, false, quoted);
            if quoting_in(src, i + 1, s.pos) {
                let j = choose|j: int| i + 1 <= j < s.pos && is_quoting(#[trigger] src[j]);
                assert(quoting_in(src, i, s.pos));
            }
        }
        if quoting_in(src, i, s.pos) && !subst_in(src, i, s.pos) {
            let j = choose|j: int| i <= j < s.pos && is_quoting(#[trigger] src[j]);
            if j > i {
                assert(quoting_in(src, i + 1, s.pos));
                if !(esc || (c == '\\' && !in_s) || (c == '\'' && !in_d) || (c == '"' && !in_s)) {
                    assert(!subst_in(src, i + 1, s.pos)) by {
                        if subst_in(src, i + 1, s.pos) {
                            let k = choose|k: int| i + 1 <= k && k + 1 < s.pos && #[trigger] src[k]
                                == '$' && src[k + 1] == '(';
                            assert(src[k] == '$');
                        }
                    }
                }
            }
        }
    }
}

/// The word reader takes the characters from `pos` up to an unquoted blank
/// or operator, or the end of the line, as the word's raw text. It reports
/// quoting only where the word holds a quote or a backslash, and always
/// where it does outside a `$(...)`. It fails only on an unclosed quote or a
/// trailing backslash, with a lexer error at the end of the line.
pub proof fn law_word_reader(src: Seq<char>, pos: int)
    requires
        0 <= pos <= src.len(),
    ensures
        read_word_spec(src, pos) matches Ok((w, q, e)) ==> {
            &&& pos <= e <= src.len()
            &&& w == src.subrange(pos, e)
            &&& e < src.len() ==> is_operator(src[e]) || is_blank(src[e])
            &&& q ==> quoting_in(src, pos, e)
            &&& quoting_in(src, pos, e) && !subst_in(src, pos, e) ==> q
        },
        read_word_spec(src, pos) matches Err(e) ==> e matches ErrorV::Lex { column, .. } && column
            == src.len() + 1,
{
    lemma_word_scan_bounds(src, pos, false, false, false, false);
    lemma_word_scan_reads(src, pos, false, false, false, false);
}

proof fn lemma_paren_close_monotone(src: Seq<char>, i: int, d1: int, d2: int)
    requires
        0 <= i <= src.len(),
        d1 <= d2,
    ensures
        paren_close(src, i, d1) <= paren_close(src, i, d2),
    decreases src.len() - i,
{
    lemma_paren_close_bounds(src, i, d2);
    if i < src.len() {
        if src[i] == '(' {
            lemma_paren_close_monotone(src, i + 1, d1 + 1, d2 + 1);
        } else if src[i] == ')' {
            if d1 > 1 {
                lemma_paren_close_monotone(src, i + 1, d1 - 1, d2 - 1);
            }
        } else {
            lemma_paren_close_monotone(src, i + 1, d1, d2);
        }
    }
}

proof fn lemma_paren_close_reaches(src: Seq<char>, i: int, d: int, m: int) -> (d2: int)
    requires
        0 <= i <= m <= src.len(),
        d >= 1,
        paren_close(src, i, d) >= m,
    ensures
        d2 >= 1,
        paren_close(src, i, d) == paren_close(src, m, d2),
    decreases m - i,
{
    if i == m {
        d
    } else if src[i] == '(' {
        lemma_paren_close_reaches(src, i + 1, d + 1, m)
    } else if src[i] == ')' {
        lemma_paren_close_reaches(src, i + 1, d - 1, m)
    } else {
        lemma_paren_close_reaches(src, i + 1, d, m)
    }
}

/// A `$(...)` inside another one ends no later than it.
proof fn lemma_subst_nested(src: Seq<char>, k0: int, k: int)
    requires
        0 <= k0 < k,
        k + 1 < src.len(),
        src[k0] == '$' && src[k0 + 1] == '(',
        src[k] == '$' && src[k + 1] == '(',
        k < subst_end(src, k0),
    ensures
        subst_end(src, k) <= subst_end(src, k0),
{
    let c0 = paren_close(src, k0 + 2, 1);
    lemma_paren_close_bounds(src, k0 + 2, 1);
    lemma_paren_close_bounds(src, k + 2, 1);
    assert(k + 1 <= c0);
    let d1 = lemma_paren_close_reaches(src, k0 + 2, 1, k + 1);
    assert(paren_close(src, k + 1, d1) == paren_close(src, k + 2, d1 + 1));
    lemma_paren_close_monotone(src, k + 2, 1, d1 + 1);
}

/// The character at `j` lies inside a `$(...)` of the word `src[pos..e]`.
pub open spec fn in_subst(src: Seq<char>, pos: int, e: int, j: int) -> bool {
    exists|k: int|
        pos <= k && k + 1 < e && #[trigger] src[k] == '$' && src[k + 1] == '(' && k < j
            < subst_end(src, k)
}

/// Some quote or backslash of `src[pos..e]` lies outside its `$(...)`s.
pub open spec fn quoting_outside_subst(src: Seq<char>, pos: int, e: int) -> bool {
    exists|j: int| pos <= j < e && is_quoting(#[trigger] src[j]) && !in_subst(src, pos, e, j)
}

proof fn lemma_word_scan_quoting(
    src: Seq<char>,
    pos: int,
    i: int,
    in_s: bool,
    in_d: bool,
    esc: bool,
    quoted: bool,
)
    requires
        0 <= pos <= i <= src.len(),
        in_s || in_d || esc ==> quoted,
        !quoted ==> forall|k: int|
            pos <= k < i && k + 1 < src.len() && #[trigger] src[k] == '$' && src[k + 1] == '('
                ==> subst_end(src, k) <= i,
    ensures
        ({
            let s = word_scan(src, i, in_s, in_d, esc, quoted);
            &&& (exists|j: int|
                i <= j < s.pos && is_quoting(#[trigger] src[j]) && !in_subst(src, pos, s.pos, j))
                ==> s.quoted
            &&& s.quoted && !quoted ==> exists|j: int|
                i <= j < s.pos && is_quoting(#[trigger] src[j]) && !in_subst(src, pos, s.pos, j)
        }),
    decreases src.len() - i,
{
    lemma_word_scan_bounds(src, i, in_s, in_d, esc, quoted);
    lemma_word_scan_reads(src, i, in_s, in_d, esc, quoted);
    let s = word_scan(src, i, in_s, in_d, esc, quoted);
    if i < src.len() {
        let c = src[i];
        if esc {
            lemma_word_scan_quoting(src, pos, i + 1, in_s, in_d, false, quoted);
            lemma_word_scan_bounds(src, i + 1, in_s, in_d, false, quoted);
            assert(s == word_scan(src, i + 1, in_s, in_d, false, quoted));
        } else if c == '\\' && !in_s {
            lemma_word_scan_quoting(src, pos, i + 1, in_s, in_d, true, true);
            lemma_word_scan_bounds(src, i + 1, in_s, in_d, true, true);
            lemma_word_scan_reads(src, i + 1, in_s, in_d, true, true);
            assert(s == word_scan(src, i + 1, in_s, in_d, true, true));
            if !quoted {
                assert(!in_subst(src, pos, s.pos, i)) by {
                    if in_subst(src, pos, s.pos, i) {
                        let k = choose|k: int|
                            pos <= k && k + 1 < s.pos && #[trigger] src[k] == '$' && src[k + 1]
                                == '(' && k < i < subst_end(src, k);
                    }
                }
                assert(is_quoting(src[i]));
            }
        } else if c == '\'' && !in_d {
            lemma_word_scan_quoting(src, pos, i + 1, !in_s, in_d, false, true);
            lemma_word_scan_bounds(src, i + 1, !in_s, in_d, false, true);
            lemma_word_scan_reads(src, i + 1, !in_s, in_d, false, true);
            assert(s == word_scan(src, i + 1, !in_s, in_d, false, true));
            if !quoted {
                assert(!in_subst(src, pos, s.pos, i)) by {
                    if in_subst(src, pos, s.pos, i) {
                        let k = choose|k: int|
                            pos <= k && k + 1 < s.pos && #[trigger] src[k] == '$' && src[k + 1]
                                == '(' && k < i < subst_end(src, k);
                    }
                }
                assert(is_quoting(src[i]));
            }
        } else if c == '"' && !in_s {
            lemma_word_scan_quoting(src, pos, i + 1, in_s, !in_d, false, true);
            lemma_word_scan_bounds(src, i + 1, in_s, !in_d, false, true);
            lemma_word_scan_reads(src, i + 1, in_s, !in_d, false, true);
            assert(s == word_scan(src, i + 1, in_s, !in_d, false, true));
            if !quoted {
                assert(!in_subst(src, pos, s.pos, i)) by {
                    if in_subst(src, pos, s.pos, i) {
                        let k = choose|k: int|
                            pos <= k && k + 1 < s.pos && #[trigger] src[k] == '$' && src[k + 1]
                                == '(' && k < i < subst_end(src, k);
                    }
                }
                assert(is_quoting(src[i]));
            }
        } else if !in_s && !in_d && (is_operator(c) || is_blank(c)) {
        } else if !in_s && c == '$' && i + 1 < src.len() && src[i + 1] == '(' {
            let i2 = subst_end(src, i);
            lemma_paren_close_bounds(src, i + 2, 1);
            if !quoted {
                assert forall|k: int|
                    pos <= k < i2 && k + 1 < src.len() && #[trigger] src[k] == '$' && src[k + 1]
                        == '(' implies subst_end(src, k) <= i2 by {
                    if i < k {
                        lemma_subst_nested(src, i, k);
                    }
                }
            }
            lemma_word_scan_quoting(src, pos, i2, in_s, in_d, false, quoted);
            lemma_word_scan_bounds(src, i2, in_s, in_d, false, quoted);
            assert(s == word_scan(src, i2, in_s, in_d, false, quoted));
            assert(i + 1 < s.pos);
            if exists|j: int|
                i <= j < s.pos && is_quoting(#[trigger] src[j]) && !in_subst(src, pos, s.pos, j) {
                let j = choose|j: int|
                    i <= j < s.pos && is_quoting(#[trigger] src[j]) && !in_subst(
                        src,
                        pos,
                        s.pos,
                        j,
                    );
                if j < i2 {
                    assert(src[i] == '$');
                    assert(j != i);
                    assert(in_subst(src, pos, s.pos, j));
                }
            }
        } else {
            lemma_word_scan_quoting(src, pos, i + 1, in_s, in_d, false, quoted);
            lemma_word_scan_bounds(src, i + 1, in_s, in_d, false, quoted);
            assert(s == word_scan(src, i + 1, in_s, in_d, false, quoted));
            if exists|j: int|
                i <= j < s.pos && is_quoting(#[trigger] src[j]) && !in_subst(src, pos, s.pos, j) {
                let j = choose|j: int|
                    i <= j < s.pos && is_quoting(#[trigger] src[j]) && !in_subst(
                        src,
                        pos,
                        s.pos,
                        j,
                    );
                if j == i {
                    assert(is_quoting(c));
                    assert(quoted);
                }
            }
        }
    }
}

/// The word reader reports quoting exactly when the word holds a quote or
/// a backslash outside its `$(...)` substitutions.
pub proof fn law_word_reader_quoting(src: Seq<char>, pos: int)
    requires
        0 <= pos <= src.len(),
    ensures
        read_word_spec(src, pos) matches Ok((_, q, e)) ==> (q <==> quoting_outside_subst(
            src,
            pos,
            e,
        )),
{
    lemma_word_scan_quoting(src, pos, pos, false, false, false, false);
}


/// A word of letters, digits and `_` only.
pub open spec fn plain_word(w: Seq<char>) -> bool {
    w.len() > 0 && forall|j: int| 0 <= j < w.len() ==> is_ident_cont(#[trigger] w[j])
}

/// The token of a plain word.
pub open spec fn plain_token(w: Seq<char>) -> TokenV {
    TokenV { type_: TokenType::Word, value: Some(w), quoted: false }
}

proof fn lemma_scan_plain(src: Seq<char>, i: int, m: int)
    requires
        0 <= i <= m <= src.len(),
        forall|j: int| i <= j < m ==> is_ident_cont(#[trigger] src[j]),
        m == src.len() || is_operator(src[m]) || is_blank(src[m]),
    ensures
        word_scan(src, i, false, false, false, false) == (ScanState {
            pos: m,
            in_squote: false,
            in_dquote: false,
            escaped: false,
            quoted: false,
        }),
    decreases m - i,
{
    if i < m {
        lemma_scan_plain(src, i + 1, m);
    }
}

/// A plain word at `pos`, ending at `m`, is one word token.
proof fn lemma_plain_step(src: Seq<char>, pos: int, m: int)
    requires
        0 <= pos < m <= src.len(),
        forall|j: int| pos <= j < m ==> is_ident_cont(#[trigger] src[j]),
        m == src.len() || is_operator(src[m]) || is_blank(src[m]),
    ensures
        lex_step(src, pos) == Ok::<(Option<TokenV>, int), ErrorV>(
            (Some(plain_token(src.subrange(pos, m))), m),
        ),
{
    lemma_scan_plain(src, pos, m);
    let w = src.subrange(pos, m);
    assert(is_ident_cont(src[pos]));
    assert(!is_assignment(w)) by {
        if is_assignment(w) {
            let k = choose|k: int|
                0 < k < w.len() && #[trigger] w[k] == '=' && is_ident_start(w[0]) && (forall|
                    j: int,
                | 1 <= j < k ==> #[trigger] is_ident_cont(w[j]));
            assert(w[k] == src[pos + k]);
            assert(is_ident_cont(src[pos + k]));
        }
    }
}

/// A plain word, an operator, and a plain word, with no blank between
/// them, lex as the two words with the operator's token between them:
/// the word ends where the operator starts, and the operator is read
/// whole (`||` as one token, not two `|`).
pub proof fn law_operator_between_words(a: Seq<char>, b: Seq<char>)
    requires
        plain_word(a),
        plain_word(b),
    ensures
        lex(a + "|"@ + b) == Ok::<Seq<TokenV>, ErrorV>(
            seq![plain_token(a), op_tok(TokenType::Pipe), plain_token(b)],
        ),
        lex(a + "||"@ + b) == Ok::<Seq<TokenV>, ErrorV>(
            seq![plain_token(a), op_tok(TokenType::Or), plain_token(b)],
        ),
        lex(a + "&&"@ + b) == Ok::<Seq<TokenV>, ErrorV>(
            seq![plain_token(a), op_tok(TokenType::And), plain_token(b)],
        ),
        lex(a + "&"@ + b) == Ok::<Seq<TokenV>, ErrorV>(
            seq![plain_token(a), op_tok(TokenType::Background), plain_token(b)],
        ),
        lex(a + ";"@ + b) == Ok::<Seq<TokenV>, ErrorV>(
            seq![plain_token(a), op_tok(TokenType::Semicolon), plain_token(b)],
        ),
        lex(a + ">"@ + b) == Ok::<Seq<TokenV>, ErrorV>(
            seq![plain_token(a), op_tok(TokenType::RedirectOut), plain_token(b)],
        ),
        lex(a + ">>"@ + b) == Ok::<Seq<TokenV>, ErrorV>(
            seq![plain_token(a), op_tok(TokenType::RedirectAppend), plain_token(b)],
        ),
        lex(a + ">|"@ + b) == Ok::<Seq<TokenV>, ErrorV>(
            seq![plain_token(a), op_tok(TokenType::RedirectClobber), plain_token(b)],
        ),
        lex(a + "&>"@ + b) == Ok::<Seq<TokenV>, ErrorV>(
            seq![plain_token(a), op_tok(TokenType::RedirectBothOut), plain_token(b)],
        ),
        lex(a + "<"@ + b) == Ok::<Seq<TokenV>, ErrorV>(
            seq![plain_token(a), op_tok(TokenType::RedirectIn), plain_token(b)],
        ),
        lex(a + "<<"@ + b) == Ok::<Seq<TokenV>, ErrorV>(
            seq![plain_token(a), op_tok(TokenType::RedirectHeredoc), plain_token(b)],
        ),
        lex(a + "<<-"@ + b) == Ok::<Seq<TokenV>, ErrorV>(
            seq![plain_token(a), op_tok(TokenType::RedirectHeredocTab), plain_token(b)],
        ),
{
    reveal_strlit("|");
    reveal_strlit("||");
    reveal_strlit("&&");
    reveal_strlit("&");
    reveal_strlit(";");
    reveal_strlit(">");
    reveal_strlit(">>");
    reveal_strlit(">|");
    reveal_strlit("&>");
    reveal_strlit("<");
    reveal_strlit("<<");
    reveal_strlit("<<-");
    lemma_op_then_word(a, "|"@, b);
    assert(lex_step(a + "|"@ + b, a.len() as int) == Ok::<(Option<TokenV>, int), ErrorV>(
        (Some(op_tok(TokenType::Pipe)), a.len() as int + 1),
    ));
    lemma_three(a, "|"@, b, op_tok(TokenType::Pipe));
    lemma_op_then_word(a, "||"@, b);
    assert(lex_step(a + "||"@ + b, a.len() as int) == Ok::<(Option<TokenV>, int), ErrorV>(
        (Some(op_tok(TokenType::Or)), a.len() as int + 2),
    ));
    lemma_three(a, "||"@, b, op_tok(TokenType::Or));
    lemma_op_then_word(a, "&&"@, b);
    assert(lex_step(a + "&&"@ + b, a.len() as int) == Ok::<(Option<TokenV>, int), ErrorV>(
        (Some(op_tok(TokenType::And)), a.len() as int + 2),
    ));
    lemma_three(a, "&&"@, b, op_tok(TokenType::And));
    lemma_op_then_word(a, "&"@, b);
    assert(lex_step(a + "&"@ + b, a.len() as int) == Ok::<(Option<TokenV>, int), ErrorV>(
        (Some(op_tok(TokenType::Background)), a.len() as int + 1),
    ));
    lemma_three(a, "&"@, b, op_tok(TokenType::Background));
    lemma_op_then_word(a, ";"@, b);
    assert(lex_step(a + ";"@ + b, a.len() as int) == Ok::<(Option<TokenV>, int), ErrorV>(
        (Some(op_tok(TokenType::Semicolon)), a.len() as int + 1),
    ));
    lemma_three(a, ";"@, b, op_tok(TokenType::Semicolon));
    lemma_op_then_word(a, ">"@, b);
    assert(lex_step(a + ">"@ + b, a.len() as int) == Ok::<(Option<TokenV>, int), ErrorV>(
        (Some(op_tok(TokenType::RedirectOut)), a.len() as int + 1),
    ));
    lemma_three(a, ">"@, b, op_tok(TokenType::RedirectOut));
    lemma_op_then_word(a, ">>"@, b);
    assert(lex_step(a + ">>"@ + b, a.len() as int) == Ok::<(Option<TokenV>, int), ErrorV>(
        (Some(op_tok(TokenType::RedirectAppend)), a.len() as int + 2),
    ));
    lemma_three(a, ">>"@, b, op_tok(TokenType::RedirectAppend));
    lemma_op_then_word(a, ">|"@, b);
    assert(lex_step(a + ">|"@ + b, a.len() as int) == Ok::<(Option<TokenV>, int), ErrorV>(
        (Some(op_tok(TokenType::RedirectClobber)), a.len() as int + 2),
    ));
    lemma_three(a, ">|"@, b, op_tok(TokenType::RedirectClobber));
    lemma_op_then_word(a, "&>"@, b);
    assert(lex_step(a + "&>"@ + b, a.len() as int) == Ok::<(Option<TokenV>, int), ErrorV>(
        (Some(op_tok(TokenType::RedirectBothOut)), a.len() as int + 2),
    ));
    lemma_three(a, "&>"@, b, op_tok(TokenType::RedirectBothOut));
    lemma_op_then_word(a, "<"@, b);
    assert(lex_step(a + "<"@ + b, a.len() as int) == Ok::<(Option<TokenV>, int), ErrorV>(
        (Some(op_tok(TokenType::RedirectIn)), a.len() as int + 1),
    ));
    lemma_three(a, "<"@, b, op_tok(TokenType::RedirectIn));
    lemma_op_then_word(a, "<<"@, b);
    assert(lex_step(a + "<<"@ + b, a.len() as int) == Ok::<(Option<TokenV>, int), ErrorV>(
        (Some(op_tok(TokenType::RedirectHeredoc)), a.len() as int + 2),
    ));
    lemma_three(a, "<<"@, b, op_tok(TokenType::RedirectHeredoc));
    lemma_op_then_word(a, "<<-"@, b);
    assert(lex_step(a + "<<-"@ + b, a.len() as int) == Ok::<(Option<TokenV>, int), ErrorV>(
        (Some(op_tok(TokenType::RedirectHeredocTab)), a.len() as int + 3),
    ));
    lemma_three(a, "<<-"@, b, op_tok(TokenType::RedirectHeredocTab));
}

proof fn lemma_three(a: Seq<char>, o: Seq<char>, b: Seq<char>, tok: TokenV)
    requires
        plain_word(a),
        plain_word(b),
        1 <= o.len(),
        is_operator(o[0]),
        lex_step(a + o + b, a.len() as int) == Ok::<(Option<TokenV>, int), ErrorV>(
            (Some(tok), (a.len() + o.len()) as int),
        ),
    ensures
        lex(a + o + b) == Ok::<Seq<TokenV>, ErrorV>(seq![plain_token(a), tok, plain_token(b)]),
{
    let s = a + o + b;
    let la = a.len() as int;
    let lo = o.len() as int;
    let n = s.len() as int;
    assert forall|j: int| 0 <= j < la implies is_ident_cont(#[trigger] s[j]) by {
        assert(s[j] == a[j]);
    }
    assert forall|j: int| la + lo <= j < n implies is_ident_cont(#[trigger] s[j]) by {
        assert(s[j] == b[j - la - lo]);
    }
    assert(s[la] == o[0]);
    lemma_plain_step(s, 0, la);
    assert(s.subrange(0, la) =~= a);
    lemma_plain_step(s, la + lo, n);
    assert(s.subrange(la + lo, n) =~= b);
    assert(is_ident_cont(s[la + lo]));
    assert(s[la + lo] == b[0]);
    assert(lex_from(s, n) == Ok::<Seq<TokenV>, ErrorV>(Seq::empty()));
    assert(lex_from(s, la + lo) == Ok::<Seq<TokenV>, ErrorV>(
        seq![plain_token(b)] + Seq::<TokenV>::empty(),
    ));
    assert(lex_from(s, la) == Ok::<Seq<TokenV>, ErrorV>(
        seq![tok] + (seq![plain_token(b)] + Seq::<TokenV>::empty()),
    ));
    assert(seq![plain_token(a)] + (seq![tok] + (seq![plain_token(b)] + Seq::<TokenV>::empty()))
        =~= seq![plain_token(a), tok, plain_token(b)]);
}

/// The characters of `a + o + b` at the operator and just after it.
proof fn lemma_op_then_word(a: Seq<char>, o: Seq<char>, b: Seq<char>)
    requires
        plain_word(b),
        1 <= o.len() <= 3,
    ensures
        ({
            let s = a + o + b;
            let la = a.len() as int;
            &&& s[la] == o[0]
            &&& o.len() >= 2 ==> s[la + 1] == o[1]
            &&& o.len() >= 3 ==> s[la + 2] == o[2]
            &&& char_at(s, la + o.len()) == Some(b[0])
            &&& is_ident_cont(b[0])
            &&& o.len() == 1 ==> char_at(s, la + 1) == Some(b[0]) && char_at(s, la + 2) == (if b.len()
                > 1 {
                Some(b[1])
            } else {
                None::<char>
            })
            &&& o.len() == 2 ==> char_at(s, la + 2) == Some(b[0])
        }),
{
    let s = a + o + b;
    let la = a.len() as int;
    assert(is_ident_cont(b[0]));
    if b.len() > 1 {
        assert(is_ident_cont(b[1]));
    }
}

} // verus!
