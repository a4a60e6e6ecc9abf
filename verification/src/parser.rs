use vstd::prelude::*;

use crate::ast::{
    AstNode, AstV, Command, CommandV, ForStmt, IfStmt, Pipeline, WhileStmt, command_is_empty,
    commands_view, empty_command, strings_view,
};
use crate::error::{ErrorV, ShellError};
use crate::text::{owned, push_text, str_eq};
use crate::token::{Token, TokenType, TokenV, opt_view, tokens_view};

verus! {

/// The longest pipeline the parser accepts.
pub const MAX_PIPE_CMDS: usize = 1024;

/// The words that end a list inside a compound command.
#[derive(Clone, Copy)]
pub enum Stops {
    Nothing,
    Then,
    ElseElifFi,
    Fi,
    Do,
    Done,
}

pub open spec fn stop_word(s: Stops, w: Seq<char>) -> bool {
    match s {
        Stops::Nothing => false,
        Stops::Then => w == "then"@,
        Stops::ElseElifFi => w == "else"@ || w == "elif"@ || w == "fi"@,
        Stops::Fi => w == "fi"@,
        Stops::Do => w == "do"@,
        Stops::Done => w == "done"@,
    }
}

/// The reserved words of the shell grammar.
pub open spec fn reserved_word(w: Seq<char>) -> bool {
    w == "if"@ || w == "then"@ || w == "else"@ || w == "elif"@ || w == "fi"@ || w == "while"@
        || w == "do"@ || w == "done"@ || w == "for"@ || w == "in"@
}

// ---------------------------------------------------------------------------
// The grammar, as mathematical functions over the token sequence
// ---------------------------------------------------------------------------

pub open spec fn type_at(t: Seq<TokenV>, pos: int) -> Option<TokenType> {
    if 0 <= pos < t.len() {
        Some(t[pos].type_)
    } else {
        None
    }
}

/// The text of the plain word at `pos`, if there is one.
pub open spec fn word_at(t: Seq<TokenV>, pos: int) -> Option<Seq<char>> {
    if 0 <= pos < t.len() && t[pos].type_ == TokenType::Word && t[pos].value is Some {
        t[pos].value
    } else {
        None
    }
}

pub open spec fn word_is(t: Seq<TokenV>, pos: int, w: Seq<char>) -> bool {
    word_at(t, pos) == Some(w)
}

pub open spec fn at_stop(t: Seq<TokenV>, pos: int, s: Stops) -> bool {
    word_at(t, pos) matches Some(w) && stop_word(s, w)
}

pub open spec fn reserved_at(t: Seq<TokenV>, pos: int) -> bool {
    word_at(t, pos) matches Some(w) && reserved_word(w)
}

/// What an error message quotes: the text of the token at `pos`, or
/// `end of input`.
pub open spec fn near_text(t: Seq<TokenV>, pos: int) -> Seq<char> {
    if 0 <= pos < t.len() && t[pos].text().len() > 0 {
        t[pos].text()
    } else {
        "end of input"@
    }
}

pub open spec fn parse_error(msg: Seq<char>, t: Seq<TokenV>, pos: int) -> ErrorV {
    ErrorV::Parse { message: msg, near: Some(near_text(t, pos)) }
}

pub open spec fn is_terminator(ty: TokenType) -> bool {
    ty == TokenType::Pipe || ty == TokenType::And || ty == TokenType::Or || ty
        == TokenType::Semicolon || ty == TokenType::Background || ty == TokenType::GroupClose
}

pub open spec fn with_arg(c: CommandV, a: Seq<char>) -> CommandV {
    CommandV { argv: c.argv.push(a), ..c }
}

pub open spec fn with_assign(c: CommandV, a: Seq<char>) -> CommandV {
    CommandV { env_assigns: c.env_assigns.push(a), ..c }
}

pub open spec fn expect_word_spec(t: Seq<TokenV>, pos: int) -> Result<Seq<char>, ErrorV> {
    match word_at(t, pos) {
        Some(w) => Ok(w),
        None => Err(parse_error("expected a word"@, t, pos)),
    }
}

/// The argument a token adds to a command, for the tokens that add one.
pub open spec fn arg_of(tok: TokenV) -> Seq<char> {
    match tok.type_ {
        TokenType::Arith => "$(("@ + tok.text() + "))"@,
        TokenType::Var => "$"@ + tok.text(),
        TokenType::VarBrace => "${"@ + tok.text() + "}"@,
        _ => tok.text(),
    }
}

/// Reads the words, assignments and redirections of a simple command,
/// adding them to `cmd`, until a token that ends it.
pub open spec fn command_from(t: Seq<TokenV>, pos: int, cmd: CommandV) -> Result<
    (CommandV, int),
    ErrorV,
>
    decreases t.len() - pos,
{
    if pos < 0 || pos >= t.len() {
        Ok((cmd, pos))
    } else {
        let tok = t[pos];
        if is_terminator(tok.type_) {
            Ok((cmd, pos))
        } else {
            match tok.type_ {
                TokenType::Word | TokenType::Arith | TokenType::Var | TokenType::VarBrace => {
                    command_from(t, pos + 1, with_arg(cmd, arg_of(tok)))
                },
                TokenType::Assign => if cmd.argv.len() == 0 {
                    command_from(t, pos + 1, with_assign(cmd, tok.text()))
                } else {
                    command_from(t, pos + 1, with_arg(cmd, tok.text()))
                },
                TokenType::RedirectIn => match expect_word_spec(t, pos + 1) {
                    Err(e) => Err(e),
                    Ok(w) => command_from(t, pos + 2, CommandV { infile: Some(w), ..cmd }),
                },
                TokenType::RedirectOut => match expect_word_spec(t, pos + 1) {
                    Err(e) => Err(e),
                    Ok(w) => command_from(
                        t,
                        pos + 2,
                        CommandV { outfile: Some(w), append_out: false, ..cmd },
                    ),
                },
                TokenType::RedirectAppend => match expect_word_spec(t, pos + 1) {
                    Err(e) => Err(e),
                    Ok(w) => command_from(
                        t,
                        pos + 2,
                        CommandV { outfile: Some(w), append_out: true, ..cmd },
                    ),
                },
                TokenType::RedirectHeredoc => match expect_word_spec(t, pos + 1) {
                    Err(e) => Err(e),
                    Ok(w) => command_from(t, pos + 2, CommandV { heredoc_delim: Some(w), ..cmd }),
                },
                _ => Ok((cmd, pos)),
            }
        }
    }
}

pub proof fn lemma_command_from(t: Seq<TokenV>, pos: int, cmd: CommandV)
    requires
        0 <= pos <= t.len(),
    ensures
        command_from(t, pos, cmd) matches Ok((c, q)) ==> pos <= q <= t.len() && (q == pos ==> c
            == cmd),
    decreases t.len() - pos,
{
    if pos < t.len() {
        let tok = t[pos];
        if !is_terminator(tok.type_) {
            match tok.type_ {
                TokenType::Word | TokenType::Arith | TokenType::Var | TokenType::VarBrace => {
                    lemma_command_from(t, pos + 1, with_arg(cmd, arg_of(tok)));
                },
                TokenType::Assign => {
                    lemma_command_from(t, pos + 1, with_assign(cmd, tok.text()));
                    lemma_command_from(t, pos + 1, with_arg(cmd, tok.text()));
                },
                TokenType::RedirectIn | TokenType::RedirectOut | TokenType::RedirectAppend
                | TokenType::RedirectHeredoc => {
                    if let Ok(w) = expect_word_spec(t, pos + 1) {
                        lemma_command_from(t, pos + 2, CommandV { infile: Some(w), ..cmd });
                        lemma_command_from(
                            t,
                            pos + 2,
                            CommandV { outfile: Some(w), append_out: false, ..cmd },
                        );
                        lemma_command_from(
                            t,
                            pos + 2,
                            CommandV { outfile: Some(w), append_out: true, ..cmd },
                        );
                        lemma_command_from(
                            t,
                            pos + 2,
                            CommandV { heredoc_delim: Some(w), ..cmd },
                        );
                    }
                },
                _ => {},
            }
        }
    }
}

/// Reads the commands that follow `|` after the ones in `cmds`.
pub open spec fn pipeline_rest(t: Seq<TokenV>, pos: int, cmds: Seq<CommandV>) -> Result<
    (Seq<CommandV>, int),
    ErrorV,
>
    decreases t.len() - pos,
{
    if type_at(t, pos) != Some(TokenType::Pipe) {
        Ok((cmds, pos))
    } else if cmds.len() >= MAX_PIPE_CMDS {
        Err(parse_error("pipeline too long"@, t, pos))
    } else {
        match command_from(t, pos + 1, empty_command()) {
            Err(e) => Err(e),
            Ok((c, q)) => if command_is_empty(c) {
                Err(parse_error("expected a command in pipeline"@, t, q))
            } else {
                proof {
                    lemma_command_from(t, pos + 1, empty_command());
                }
                pipeline_rest(t, q, cmds.push(c))
            },
        }
    }
}

/// A simple command, or a pipeline of them.
pub open spec fn simple_spec(t: Seq<TokenV>, pos: int) -> Result<(Option<AstV>, int), ErrorV> {
    match command_from(t, pos, empty_command()) {
        Err(e) => Err(e),
        Ok((first, p)) => if command_is_empty(first) {
            Err(parse_error("empty command"@, t, p))
        } else if type_at(t, p) != Some(TokenType::Pipe) {
            Ok((Some(AstV::Command(first)), p))
        } else {
            match pipeline_rest(t, p, seq![first]) {
                Err(e) => Err(e),
                Ok((cmds, q)) => Ok((Some(AstV::Pipeline(cmds)), q)),
            }
        },
    }
}

/// Marks `&` on the last command of a `;` chain.
pub open spec fn background_last_spec(n: AstV) -> AstV
    decreases n,
{
    match n {
        AstV::Semicolon(left, right) => AstV::Semicolon(
            left,
            Box::new(background_last_spec(*right)),
        ),
        other => AstV::Background(Box::new(other)),
    }
}

/// A value for the cases that the position checks below rule out.
pub open spec fn stuck<A>() -> Result<A, ErrorV> {
    Err(ErrorV::Eval { message: Seq::empty() })
}

pub open spec fn combine(ty: TokenType, left: AstV, right: AstV) -> AstV {
    if ty == TokenType::And {
        AstV::And(Box::new(left), Box::new(right))
    } else if ty == TokenType::Or {
        AstV::Or(Box::new(left), Box::new(right))
    } else {
        AstV::Semicolon(Box::new(left), Box::new(right))
    }
}

/// A list of components joined by `;`, `&&`, `||` and `&`, up to one of
/// the stop words.
pub open spec fn list_until_spec(t: Seq<TokenV>, pos: int, stops: Stops) -> Result<
    (AstV, int),
    ErrorV,
>
    decreases t.len() - pos, 5int,
{
    match component_spec(t, pos) {
        Err(e) => Err(e),
        Ok((None, q)) => Ok((AstV::Command(empty_command()), q)),
        Ok((Some(n), q)) => if pos < q <= t.len() {
            list_loop_spec(t, q, stops, n)
        } else {
            stuck()
        },
    }
}

/// The rest of a list, after the component `left`.
pub open spec fn list_loop_spec(t: Seq<TokenV>, pos: int, stops: Stops, left: AstV) -> Result<
    (AstV, int),
    ErrorV,
>
    decreases t.len() - pos, 2int,
{
    if at_stop(t, pos, stops) {
        Ok((left, pos))
    } else {
        match type_at(t, pos) {
            Some(ty) => if ty == TokenType::Semicolon || ty == TokenType::And || ty
                == TokenType::Or {
                if at_stop(t, pos + 1, stops) {
                    Ok((left, pos + 1))
                } else {
                    match component_spec(t, pos + 1) {
                        Err(e) => Err(e),
                        Ok((None, q)) => Ok((left, q)),
                        Ok((Some(right), q)) => if pos < q <= t.len() {
                            list_loop_spec(t, q, stops, combine(ty, left, right))
                        } else {
                            stuck()
                        },
                    }
                }
            } else if ty == TokenType::Background {
                let bg = background_last_spec(left);
                if at_stop(t, pos + 1, stops) || pos + 1 >= t.len() {
                    Ok((bg, pos + 1))
                } else {
                    match component_spec(t, pos + 1) {
                        Err(e) => Err(e),
                        Ok((None, q)) => Ok((bg, q)),
                        Ok((Some(right), q)) => if pos < q <= t.len() {
                            list_loop_spec(
                                t,
                                q,
                                stops,
                                AstV::Semicolon(Box::new(bg), Box::new(right)),
                            )
                        } else {
                            stuck()
                        },
                    }
                }
            } else {
                Ok((left, pos))
            },
            None => Ok((left, pos)),
        }
    }
}

/// One component of a list: a group, a compound command, or a simple
/// command or pipeline; nothing at a reserved word that starts none.
pub open spec fn component_spec(t: Seq<TokenV>, pos: int) -> Result<(Option<AstV>, int), ErrorV>
    decreases t.len() - pos, 4int,
{
    if type_at(t, pos) == Some(TokenType::GroupOpen) {
        match group_spec(t, pos) {
            Err(e) => Err(e),
            Ok((n, q)) => Ok((Some(n), q)),
        }
    } else if reserved_at(t, pos) {
        if word_is(t, pos, "if"@) {
            match if_spec(t, pos) {
                Err(e) => Err(e),
                Ok((n, q)) => Ok((Some(n), q)),
            }
        } else if word_is(t, pos, "while"@) {
            match while_spec(t, pos) {
                Err(e) => Err(e),
                Ok((n, q)) => Ok((Some(n), q)),
            }
        } else if word_is(t, pos, "for"@) {
            match for_spec(t, pos) {
                Err(e) => Err(e),
                Ok((n, q)) => Ok((Some(n), q)),
            }
        } else {
            Ok((None, pos))
        }
    } else {
        simple_spec(t, pos)
    }
}

/// `( list )`, with the parenthesis at `pos`.
pub open spec fn group_spec(t: Seq<TokenV>, pos: int) -> Result<(AstV, int), ErrorV>
    decreases t.len() - pos, 3int,
{
    if !(0 <= pos < t.len()) {
        stuck()
    } else {
        match list_until_spec(t, pos + 1, Stops::Nothing) {
            Err(e) => Err(e),
            Ok((body, q)) => if type_at(t, q) != Some(TokenType::GroupClose) {
                Err(parse_error("expected ')'"@, t, q))
            } else {
                Ok((AstV::Group(Box::new(body)), q + 1))
            },
        }
    }
}

/// `if list then list [elif ...] [else list] fi`, with `if` at `pos`.
pub open spec fn if_spec(t: Seq<TokenV>, pos: int) -> Result<(AstV, int), ErrorV>
    decreases t.len() - pos, 3int,
{
    if !(0 <= pos < t.len()) {
        stuck()
    } else {
        match list_until_spec(t, pos + 1, Stops::Then) {
            Err(e) => Err(e),
            Ok((cond, q1)) => if !word_is(t, q1, "then"@) {
                Err(parse_error("expected 'then'"@, t, q1))
            } else if !(pos <= q1) {
                stuck()
            } else {
                match list_until_spec(t, q1 + 1, Stops::ElseElifFi) {
                    Err(e) => Err(e),
                    Ok((then_body, q2)) => if !(pos < q2 <= t.len()) {
                        stuck()
                    } else {
                        match if_tail_spec(t, q2) {
                            Err(e) => Err(e),
                            Ok((else_body, q3)) => if !word_is(t, q3, "fi"@) {
                                Err(parse_error("expected 'fi'"@, t, q3))
                            } else {
                                Ok(
                                    (
                                        AstV::If(
                                            Box::new(cond),
                                            Box::new(then_body),
                                            else_body,
                                        ),
                                        q3 + 1,
                                    ),
                                )
                            },
                        }
                    },
                }
            },
        }
    }
}

/// What follows the body of an `if` branch: an `elif` chain, an `else`
/// list, or nothing.
pub open spec fn if_tail_spec(t: Seq<TokenV>, pos: int) -> Result<
    (Option<Box<AstV>>, int),
    ErrorV,
>
    decreases t.len() - pos, 3int,
{
    if word_is(t, pos, "elif"@) {
        match list_until_spec(t, pos + 1, Stops::Then) {
            Err(e) => Err(e),
            Ok((cond, q1)) => if !word_is(t, q1, "then"@) {
                Err(parse_error("expected 'then'"@, t, q1))
            } else if !(pos <= q1) {
                stuck()
            } else {
                match list_until_spec(t, q1 + 1, Stops::ElseElifFi) {
                    Err(e) => Err(e),
                    Ok((then_body, q2)) => if !(pos < q2 <= t.len()) {
                        stuck()
                    } else {
                        match if_tail_spec(t, q2) {
                            Err(e) => Err(e),
                            Ok((nested, q3)) => Ok(
                                (
                                    Some(
                                        Box::new(
                                            AstV::If(Box::new(cond), Box::new(then_body), nested),
                                        ),
                                    ),
                                    q3,
                                ),
                            ),
                        }
                    },
                }
            },
        }
    } else if word_is(t, pos, "else"@) {
        match list_until_spec(t, pos + 1, Stops::Fi) {
            Err(e) => Err(e),
            Ok((body, q)) => Ok((Some(Box::new(body)), q)),
        }
    } else {
        Ok((None, pos))
    }
}

/// `while list do list done`, with `while` at `pos`.
pub open spec fn while_spec(t: Seq<TokenV>, pos: int) -> Result<(AstV, int), ErrorV>
    decreases t.len() - pos, 3int,
{
    if !(0 <= pos < t.len()) {
        stuck()
    } else {
        match list_until_spec(t, pos + 1, Stops::Do) {
            Err(e) => Err(e),
            Ok((cond, q1)) => if !word_is(t, q1, "do"@) {
                Err(parse_error("expected 'do'"@, t, q1))
            } else if !(pos <= q1) {
                stuck()
            } else {
                match list_until_spec(t, q1 + 1, Stops::Done) {
                    Err(e) => Err(e),
                    Ok((body, q2)) => if !word_is(t, q2, "done"@) {
                        Err(parse_error("expected 'done'"@, t, q2))
                    } else {
                        Ok((AstV::While(Box::new(cond), Box::new(body)), q2 + 1))
                    },
                }
            },
        }
    }
}

/// The words after `for NAME in`, up to a reserved word or a non-word.
pub open spec fn wordlist_from(t: Seq<TokenV>, pos: int, acc: Seq<Seq<char>>) -> (
    Seq<Seq<char>>,
    int,
)
    decreases t.len() - pos,
{
    match word_at(t, pos) {
        Some(w) => if reserved_word(w) {
            (acc, pos)
        } else {
            wordlist_from(t, pos + 1, acc.push(w))
        },
        None => (acc, pos),
    }
}

/// `for NAME [in WORDS] [;] do list done`, with `for` at `pos`.
pub open spec fn for_spec(t: Seq<TokenV>, pos: int) -> Result<(AstV, int), ErrorV>
    decreases t.len() - pos, 3int,
{
    if !(0 <= pos < t.len()) {
        stuck()
    } else {
        match word_at(t, pos + 1) {
            None => Err(parse_error("expected loop variable"@, t, pos + 1)),
            Some(var) => {
                let p2 = pos + 2;
                let (words, p3) = if word_is(t, p2, "in"@) {
                    wordlist_from(t, p2 + 1, Seq::empty())
                } else {
                    (Seq::empty(), p2)
                };
                let p4 = if type_at(t, p3) == Some(TokenType::Semicolon) {
                    p3 + 1
                } else {
                    p3
                };
                if !word_is(t, p4, "do"@) {
                    Err(parse_error("expected 'do'"@, t, p4))
                } else if !(pos <= p4) {
                    stuck()
                } else {
                    match list_until_spec(t, p4 + 1, Stops::Done) {
                        Err(e) => Err(e),
                        Ok((body, q)) => if !word_is(t, q, "done"@) {
                            Err(parse_error("expected 'done'"@, t, q))
                        } else {
                            Ok((AstV::For(var, words, Box::new(body)), q + 1))
                        },
                    }
                }
            },
        }
    }
}

/// A whole command line.
pub open spec fn parse_spec(t: Seq<TokenV>) -> Result<AstV, ErrorV> {
    match list_until_spec(t, 0, Stops::Nothing) {
        Err(e) => Err(e),
        Ok((n, q)) => if 0 <= q < t.len() && !reserved_at(t, q) {
            Err(parse_error("unexpected token"@, t, q))
        } else {
            Ok(n)
        },
    }
}

// ---------------------------------------------------------------------------
// The parser
// ---------------------------------------------------------------------------

/// A cursor over the tokens of a line.
struct Parser<'a> {
    tokens: &'a [Token],
    pos: usize,
}

impl<'a> Parser<'a> {
    spec fn toks(&self) -> Seq<TokenV> {
        tokens_view(self.tokens@)
    }

    fn new(tokens: &'a [Token]) -> (p: Self)
        ensures
            p.tokens == tokens,
            p.pos == 0,
    {
        Parser { tokens, pos: 0 }
    }

    fn peek(&self) -> (r: Option<&'a Token>)
        ensures
            self.pos < self.tokens@.len() ==> r == Some(&self.tokens@[self.pos as int]),
            self.pos >= self.tokens@.len() ==> r is None,
    {
        let toks: &'a [Token] = self.tokens;
        if self.pos < toks.len() {
            Some(&toks[self.pos])
        } else {
            None
        }
    }

    fn peek_type(&self) -> (r: Option<TokenType>)
        ensures
            r == type_at(self.toks(), self.pos as int),
    {
        match self.peek() {
            Some(t) => Some(t.type_),
            None => None,
        }
    }

    fn advance(&mut self)
        ensures
            final(self).tokens == old(self).tokens,
            final(self).pos == if old(self).pos < old(self).tokens@.len() {
                old(self).pos + 1
            } else {
                old(self).pos as int
            },
    {
        if self.pos < self.tokens.len() {
            self.pos += 1;
        }
    }

    /// The text that an error at the current position quotes.
    fn near(&self) -> (s: String)
        ensures
            s@ == near_text(self.toks(), self.pos as int),
    {
        match self.peek() {
            Some(t) => {
                let text = t.text();
                if !text.is_empty() {
                    return owned(text);
                }
                owned("end of input")
            },
            None => owned("end of input"),
        }
    }
}

pub open spec fn cmd_res(r: Result<Command, ShellError>, pos: usize) -> Result<(CommandV, int), ErrorV> {
    match r {
        Ok(c) => Ok((c@, pos as int)),
        Err(e) => Err(e@),
    }
}

pub open spec fn node_res(r: Result<AstNode, ShellError>, pos: usize) -> Result<(AstV, int), ErrorV> {
    match r {
        Ok(n) => Ok((n@, pos as int)),
        Err(e) => Err(e@),
    }
}

pub open spec fn opt_node_res(r: Result<Option<AstNode>, ShellError>, pos: usize) -> Result<
    (Option<AstV>, int),
    ErrorV,
> {
    match r {
        Ok(Some(n)) => Ok((Some(n@), pos as int)),
        Ok(None) => Ok((None, pos as int)),
        Err(e) => Err(e@),
    }
}

pub open spec fn else_res(r: Result<Option<AstNode>, ShellError>, pos: usize) -> Result<
    (Option<Box<AstV>>, int),
    ErrorV,
> {
    match r {
        Ok(Some(n)) => Ok((Some(Box::new(n@)), pos as int)),
        Ok(None) => Ok((None, pos as int)),
        Err(e) => Err(e@),
    }
}

fn is_command_terminator(t: TokenType) -> (r: bool)
    ensures
        r == is_terminator(t),
{
    match t {
        TokenType::Pipe | TokenType::And | TokenType::Or | TokenType::Semicolon
        | TokenType::Background | TokenType::GroupClose => true,
        _ => false,
    }
}

fn is_reserved_word(w: &str) -> (r: bool)
    ensures
        r == reserved_word(w@),
{
    str_eq(w, "if") || str_eq(w, "then") || str_eq(w, "else") || str_eq(w, "elif") || str_eq(
        w,
        "fi",
    ) || str_eq(w, "while") || str_eq(w, "do") || str_eq(w, "done") || str_eq(w, "for")
        || str_eq(w, "in")
}

fn stop_matches(stops: Stops, w: &str) -> (r: bool)
    ensures
        r == stop_word(stops, w@),
{
    match stops {
        Stops::Nothing => false,
        Stops::Then => str_eq(w, "then"),
        Stops::ElseElifFi => str_eq(w, "else") || str_eq(w, "elif") || str_eq(w, "fi"),
        Stops::Fi => str_eq(w, "fi"),
        Stops::Do => str_eq(w, "do"),
        Stops::Done => str_eq(w, "done"),
    }
}

/// The plain word at the cursor, if there is one.
fn peek_word(p: &Parser) -> (r: Option<String>)
    ensures
        opt_view(r) == word_at(p.toks(), p.pos as int),
{
    match p.peek() {
        Some(tok) => match tok.type_ {
            TokenType::Word => match &tok.value {
                Some(v) => Some(v.clone()),
                None => None,
            },
            _ => None,
        },
        None => None,
    }
}

fn is_reserved(p: &Parser) -> (r: bool)
    ensures
        r == reserved_at(p.toks(), p.pos as int),
{
    match peek_word(p) {
        Some(w) => is_reserved_word(w.as_str()),
        None => false,
    }
}

fn is_stop(p: &Parser, stops: Stops) -> (r: bool)
    ensures
        r == at_stop(p.toks(), p.pos as int, stops),
{
    match peek_word(p) {
        Some(w) => stop_matches(stops, w.as_str()),
        None => false,
    }
}

/// Tells whether the word at the cursor is `w`.
fn word_is_here(p: &Parser, w: &str) -> (r: bool)
    ensures
        r == word_is(p.toks(), p.pos as int, w@),
{
    match peek_word(p) {
        Some(v) => str_eq(v.as_str(), w),
        None => false,
    }
}

fn parse_error_here(p: &Parser, message: &str) -> (e: ShellError)
    ensures
        e@ == parse_error(message@, p.toks(), p.pos as int),
{
    ShellError::parse(message, Some(p.near()))
}

/// Reads the word a redirection operator needs.
fn expect_word(p: &mut Parser) -> (r: Result<String, ShellError>)
    ensures
        final(p).tokens == old(p).tokens,
        match r {
            Ok(w) => expect_word_spec(old(p).toks(), old(p).pos as int) == Ok::<
                Seq<char>,
                ErrorV,
            >(w@) && final(p).pos == old(p).pos + 1,
            Err(e) => expect_word_spec(old(p).toks(), old(p).pos as int) == Err::<
                Seq<char>,
                ErrorV,
            >(e@),
        },
{
    match peek_word(p) {
        Some(v) => {
            p.advance();
            Ok(v)
        },
        None => Err(parse_error_here(p, "expected a word")),
    }
}

/// Reads one simple command.
fn parse_command(p: &mut Parser) -> (r: Result<Command, ShellError>)
    requires
        old(p).pos <= old(p).tokens@.len(),
    ensures
        final(p).tokens == old(p).tokens,
        cmd_res(r, final(p).pos) == command_from(
            old(p).toks(),
            old(p).pos as int,
            empty_command(),
        ),
        r is Ok ==> old(p).pos <= final(p).pos <= old(p).tokens@.len(),
{
    let ghost t = p.toks();
    let ghost p0 = p.pos as int;
    let mut cmd = Command::new();
    loop
        invariant
            p.tokens == old(p).tokens,
            t == p.toks(),
            t.len() == p.tokens@.len(),
            p0 == old(p).pos,
            p0 <= p.pos <= p.tokens@.len(),
            command_from(t, p0, empty_command()) == command_from(t, p.pos as int, cmd@),
        decreases p.tokens@.len() - p.pos,
    {
        let toks: &[Token] = p.tokens;
        if p.pos >= toks.len() {
            return Ok(cmd);
        }
        let tok = &toks[p.pos];
        let ghost tv = t[p.pos as int];
        assert(tv == tok@);
        if is_command_terminator(tok.type_) {
            return Ok(cmd);
        }
        let ghost before = cmd@;
        let ghost here = p.pos as int;
        match tok.type_ {
            TokenType::Word => {
                cmd.argv.push(owned(tok.text()));
                p.advance();
                assert(cmd@ =~= with_arg(before, arg_of(tv)));
            },
            TokenType::Assign => {
                if cmd.argv.len() == 0 {
                    cmd.env_assigns.push(owned(tok.text()));
                    p.advance();
                    assert(cmd@ =~= with_assign(before, tv.text()));
                } else {
                    cmd.argv.push(owned(tok.text()));
                    p.advance();
                    assert(cmd@ =~= with_arg(before, tv.text()));
                }
            },
            TokenType::Arith => {
                let mut a = owned("$((");
                push_text(&mut a, tok.text());
                push_text(&mut a, "))");
                cmd.argv.push(a);
                p.advance();
                assert(cmd@ =~= with_arg(before, arg_of(tv)));
            },
            TokenType::Var => {
                let mut a = owned("$");
                push_text(&mut a, tok.text());
                cmd.argv.push(a);
                p.advance();
                assert(cmd@ =~= with_arg(before, arg_of(tv)));
            },
            TokenType::VarBrace => {
                let mut a = owned("${");
                push_text(&mut a, tok.text());
                push_text(&mut a, "}");
                cmd.argv.push(a);
                p.advance();
                assert(cmd@ =~= with_arg(before, arg_of(tv)));
            },
            TokenType::RedirectIn => {
                p.advance();
                let w = match expect_word(p) {
                    Ok(w) => w,
                    Err(e) => return Err(e),
                };
                cmd.infile = Some(w);
                assert(cmd@ =~= CommandV { infile: Some(w@), ..before });
            },
            TokenType::RedirectOut => {
                p.advance();
                let w = match expect_word(p) {
                    Ok(w) => w,
                    Err(e) => return Err(e),
                };
                cmd.outfile = Some(w);
                cmd.append_out = false;
                assert(cmd@ =~= CommandV { outfile: Some(w@), append_out: false, ..before });
            },
            TokenType::RedirectAppend => {
                p.advance();
                let w = match expect_word(p) {
                    Ok(w) => w,
                    Err(e) => return Err(e),
                };
                cmd.outfile = Some(w);
                cmd.append_out = true;
                assert(cmd@ =~= CommandV { outfile: Some(w@), append_out: true, ..before });
            },
            TokenType::RedirectHeredoc => {
                p.advance();
                let w = match expect_word(p) {
                    Ok(w) => w,
                    Err(e) => return Err(e),
                };
                cmd.heredoc_delim = Some(w);
                assert(cmd@ =~= CommandV { heredoc_delim: Some(w@), ..before });
            },
            _ => {
                return Ok(cmd);
            },
        }
    }
}

/// Reads a simple command, or a pipeline of them.
fn parse_simple(p: &mut Parser) -> (r: Result<Option<AstNode>, ShellError>)
    requires
        old(p).pos <= old(p).tokens@.len(),
    ensures
        final(p).tokens == old(p).tokens,
        opt_node_res(r, final(p).pos) == simple_spec(old(p).toks(), old(p).pos as int),
        r is Ok ==> old(p).pos < final(p).pos <= old(p).tokens@.len(),
{
    let ghost t = p.toks();
    let ghost p0 = p.pos as int;
    let first = match parse_command(p) {
        Ok(c) => c,
        Err(e) => return Err(e),
    };
    proof {
        lemma_command_from(t, p0, empty_command());
    }
    if first.is_empty() {
        return Err(parse_error_here(p, "empty command"));
    }
    match p.peek_type() {
        Some(TokenType::Pipe) => {},
        _ => return Ok(Some(AstNode::command(first))),
    }
    let ghost p1 = p.pos as int;
    let ghost first_v = first@;
    let mut pipeline = Pipeline::new();
    pipeline.commands.push(first);
    assert(commands_view(pipeline.commands@) =~= seq![first_v]);
    loop
        invariant
            p.tokens == old(p).tokens,
            t == p.toks(),
            t.len() == p.tokens@.len(),
            p0 == old(p).pos,
            p0 < p1 <= p.pos <= p.tokens@.len(),
            command_from(t, p0, empty_command()) == Ok::<(CommandV, int), ErrorV>((first_v, p1)),
            !command_is_empty(first_v),
            type_at(t, p1) == Some(TokenType::Pipe),
            pipeline_rest(t, p1, seq![first_v]) == pipeline_rest(
                t,
                p.pos as int,
                commands_view(pipeline.commands@),
            ),
        decreases p.tokens@.len() - p.pos,
    {
        match p.peek_type() {
            Some(TokenType::Pipe) => {},
            _ => return Ok(Some(AstNode::pipeline(pipeline))),
        }
        if pipeline.commands.len() >= MAX_PIPE_CMDS {
            return Err(parse_error_here(p, "pipeline too long"));
        }
        let ghost cmds = commands_view(pipeline.commands@);
        p.advance();
        let next = match parse_command(p) {
            Ok(c) => c,
            Err(e) => return Err(e),
        };
        if next.is_empty() {
            return Err(parse_error_here(p, "expected a command in pipeline"));
        }
        let ghost nv = next@;
        pipeline.commands.push(next);
        assert(commands_view(pipeline.commands@) =~= cmds.push(nv));
    }
}

/// Puts the last command of a `;` chain in the background.
fn background_last(node: AstNode) -> (r: AstNode)
    ensures
        r@ == background_last_spec(node@),
    decreases node,
{
    match node {
        AstNode::Semicolon { left, right } => AstNode::binary_semicolon(
            *left,
            background_last(*right),
        ),
        other => AstNode::background(other),
    }
}

/// Reads a list up to one of the stop words (or to whatever ends it).
fn parse_list_until(p: &mut Parser, stops: Stops) -> (r: Result<AstNode, ShellError>)
    requires
        old(p).pos <= old(p).tokens@.len(),
    ensures
        final(p).tokens == old(p).tokens,
        node_res(r, final(p).pos) == list_until_spec(old(p).toks(), old(p).pos as int, stops),
        r is Ok ==> old(p).pos <= final(p).pos <= old(p).tokens@.len(),
    decreases old(p).tokens@.len() - old(p).pos, 5int,
{
    let ghost t = p.toks();
    let ghost p0 = p.pos as int;
    let first = match parse_component(p) {
        Ok(Some(n)) => n,
        Ok(None) => return Ok(AstNode::command(Command::new())),
        Err(e) => return Err(e),
    };
    let mut left = first;
    loop
        invariant
            p.tokens == old(p).tokens,
            t == p.toks(),
            t.len() == p.tokens@.len(),
            p0 == old(p).pos,
            p0 < p.pos <= p.tokens@.len(),
            list_until_spec(t, p0, stops) == list_loop_spec(t, p.pos as int, stops, left@),
        decreases p.tokens@.len() - p.pos,
    {
        if is_stop(p, stops) {
            return Ok(left);
        }
        let ghost here = p.pos as int;
        let ty = match p.peek_type() {
            Some(ty) => ty,
            None => return Ok(left),
        };
        match ty {
            TokenType::Semicolon | TokenType::And | TokenType::Or => {
                p.advance();
                if is_stop(p, stops) {
                    return Ok(left);
                }
                let right = match parse_component(p) {
                    Ok(Some(n)) => n,
                    Ok(None) => return Ok(left),
                    Err(e) => return Err(e),
                };
                left = match ty {
                    TokenType::And => AstNode::binary_and(left, right),
                    TokenType::Or => AstNode::binary_or(left, right),
                    _ => AstNode::binary_semicolon(left, right),
                };
            },
            TokenType::Background => {
                p.advance();
                left = background_last(left);
                if is_stop(p, stops) || p.peek().is_none() {
                    return Ok(left);
                }
                let right = match parse_component(p) {
                    Ok(Some(n)) => n,
                    Ok(None) => return Ok(left),
                    Err(e) => return Err(e),
                };
                left = AstNode::binary_semicolon(left, right);
            },
            _ => return Ok(left),
        }
    }
}

/// Reads one component of a list.
fn parse_component(p: &mut Parser) -> (r: Result<Option<AstNode>, ShellError>)
    requires
        old(p).pos <= old(p).tokens@.len(),
    ensures
        final(p).tokens == old(p).tokens,
        opt_node_res(r, final(p).pos) == component_spec(old(p).toks(), old(p).pos as int),
        r is Ok ==> old(p).pos <= final(p).pos <= old(p).tokens@.len(),
        r matches Ok(Some(_)) ==> old(p).pos < final(p).pos,
    decreases old(p).tokens@.len() - old(p).pos, 4int,
{
    match p.peek_type() {
        Some(TokenType::GroupOpen) => {
            return match parse_group(p) {
                Ok(n) => Ok(Some(n)),
                Err(e) => Err(e),
            };
        },
        _ => {},
    }
    if is_reserved(p) {
        if word_is_here(p, "if") {
            return match parse_if(p) {
                Ok(n) => Ok(Some(n)),
                Err(e) => Err(e),
            };
        }
        if word_is_here(p, "while") {
            return match parse_while(p) {
                Ok(n) => Ok(Some(n)),
                Err(e) => Err(e),
            };
        }
        if word_is_here(p, "for") {
            return match parse_for(p) {
                Ok(n) => Ok(Some(n)),
                Err(e) => Err(e),
            };
        }
        return Ok(None);
    }
    parse_simple(p)
}

/// Reads `( list )`.
fn parse_group(p: &mut Parser) -> (r: Result<AstNode, ShellError>)
    requires
        old(p).pos < old(p).tokens@.len(),
    ensures
        final(p).tokens == old(p).tokens,
        node_res(r, final(p).pos) == group_spec(old(p).toks(), old(p).pos as int),
        r is Ok ==> old(p).pos < final(p).pos <= old(p).tokens@.len(),
    decreases old(p).tokens@.len() - old(p).pos, 3int,
{
    p.advance();
    let body = match parse_list_until(p, Stops::Nothing) {
        Ok(n) => n,
        Err(e) => return Err(e),
    };
    match p.peek_type() {
        Some(TokenType::GroupClose) => {},
        _ => return Err(parse_error_here(p, "expected ')'")),
    }
    p.advance();
    Ok(AstNode::group(body))
}

/// Reads `if ... fi`.
fn parse_if(p: &mut Parser) -> (r: Result<AstNode, ShellError>)
    requires
        old(p).pos < old(p).tokens@.len(),
    ensures
        final(p).tokens == old(p).tokens,
        node_res(r, final(p).pos) == if_spec(old(p).toks(), old(p).pos as int),
        r is Ok ==> old(p).pos < final(p).pos <= old(p).tokens@.len(),
    decreases old(p).tokens@.len() - old(p).pos, 3int,
{
    p.advance();
    let condition = match parse_list_until(p, Stops::Then) {
        Ok(n) => n,
        Err(e) => return Err(e),
    };
    if !word_is_here(p, "then") {
        return Err(parse_error_here(p, "expected 'then'"));
    }
    p.advance();
    let then_body = match parse_list_until(p, Stops::ElseElifFi) {
        Ok(n) => n,
        Err(e) => return Err(e),
    };
    let else_body = match parse_if_tail(p) {
        Ok(n) => n,
        Err(e) => return Err(e),
    };
    if !word_is_here(p, "fi") {
        return Err(parse_error_here(p, "expected 'fi'"));
    }
    p.advance();
    let else_body = match else_body {
        Some(b) => Some(Box::new(b)),
        None => None,
    };
    Ok(
        AstNode::If(
            IfStmt { condition: Box::new(condition), then_body: Box::new(then_body), else_body },
        ),
    )
}

/// Reads the `elif` or `else` part of an `if`, if there is one.
fn parse_if_tail(p: &mut Parser) -> (r: Result<Option<AstNode>, ShellError>)
    requires
        old(p).pos <= old(p).tokens@.len(),
    ensures
        final(p).tokens == old(p).tokens,
        else_res(r, final(p).pos) == if_tail_spec(old(p).toks(), old(p).pos as int),
        r is Ok ==> old(p).pos <= final(p).pos <= old(p).tokens@.len(),
    decreases old(p).tokens@.len() - old(p).pos, 3int,
{
    if word_is_here(p, "elif") {
        p.advance();
        let condition = match parse_list_until(p, Stops::Then) {
            Ok(n) => n,
            Err(e) => return Err(e),
        };
        if !word_is_here(p, "then") {
            return Err(parse_error_here(p, "expected 'then'"));
        }
        p.advance();
        let then_body = match parse_list_until(p, Stops::ElseElifFi) {
            Ok(n) => n,
            Err(e) => return Err(e),
        };
        let nested_else = match parse_if_tail(p) {
            Ok(n) => n,
            Err(e) => return Err(e),
        };
        let nested_else = match nested_else {
            Some(b) => Some(Box::new(b)),
            None => None,
        };
        return Ok(
            Some(
                AstNode::If(
                    IfStmt {
                        condition: Box::new(condition),
                        then_body: Box::new(then_body),
                        else_body: nested_else,
                    },
                ),
            ),
        );
    }
    if word_is_here(p, "else") {
        p.advance();
        return match parse_list_until(p, Stops::Fi) {
            Ok(n) => Ok(Some(n)),
            Err(e) => Err(e),
        };
    }
    Ok(None)
}

/// Reads `while ... do ... done`.
fn parse_while(p: &mut Parser) -> (r: Result<AstNode, ShellError>)
    requires
        old(p).pos < old(p).tokens@.len(),
    ensures
        final(p).tokens == old(p).tokens,
        node_res(r, final(p).pos) == while_spec(old(p).toks(), old(p).pos as int),
        r is Ok ==> old(p).pos < final(p).pos <= old(p).tokens@.len(),
    decreases old(p).tokens@.len() - old(p).pos, 3int,
{
    p.advance();
    let condition = match parse_list_until(p, Stops::Do) {
        Ok(n) => n,
        Err(e) => return Err(e),
    };
    if !word_is_here(p, "do") {
        return Err(parse_error_here(p, "expected 'do'"));
    }
    p.advance();
    let body = match parse_list_until(p, Stops::Done) {
        Ok(n) => n,
        Err(e) => return Err(e),
    };
    if !word_is_here(p, "done") {
        return Err(parse_error_here(p, "expected 'done'"));
    }
    p.advance();
    Ok(AstNode::While(WhileStmt { condition: Box::new(condition), body: Box::new(body) }))
}

/// Reads the words of a `for` list, up to a reserved word or a non-word.
fn read_wordlist(p: &mut Parser) -> (r: Vec<String>)
    requires
        old(p).pos <= old(p).tokens@.len(),
    ensures
        final(p).tokens == old(p).tokens,
        wordlist_from(old(p).toks(), old(p).pos as int, Seq::empty()) == (
            strings_view(r@),
            final(p).pos as int,
        ),
        old(p).pos <= final(p).pos <= old(p).tokens@.len(),
{
    let ghost t = p.toks();
    let ghost start = p.pos as int;
    let mut wordlist: Vec<String> = Vec::new();
    assert(strings_view(wordlist@) =~= Seq::<Seq<char>>::empty());
    loop
        invariant
            p.tokens == old(p).tokens,
            t == p.toks(),
            t.len() == p.tokens@.len(),
            start == old(p).pos,
            start <= p.pos <= p.tokens@.len(),
            wordlist_from(t, start, Seq::empty()) == wordlist_from(
                t,
                p.pos as int,
                strings_view(wordlist@),
            ),
        ensures
            p.tokens == old(p).tokens,
            start <= p.pos <= p.tokens@.len(),
            wordlist_from(t, start, Seq::empty()) == (strings_view(wordlist@), p.pos as int),
        decreases p.tokens@.len() - p.pos,
    {
        let w = match peek_word(p) {
            Some(w) => w,
            None => break,
        };
        if is_reserved_word(w.as_str()) {
            break;
        }
        let ghost before = strings_view(wordlist@);
        let ghost wv = w@;
        wordlist.push(w);
        p.advance();
        assert(strings_view(wordlist@) =~= before.push(wv));
    }
    wordlist
}

/// Reads `for NAME [in WORDS] [;] do ... done`.
fn parse_for(p: &mut Parser) -> (r: Result<AstNode, ShellError>)
    requires
        old(p).pos < old(p).tokens@.len(),
    ensures
        final(p).tokens == old(p).tokens,
        node_res(r, final(p).pos) == for_spec(old(p).toks(), old(p).pos as int),
        r is Ok ==> old(p).pos < final(p).pos <= old(p).tokens@.len(),
    decreases old(p).tokens@.len() - old(p).pos, 3int,
{
    let ghost t = p.toks();
    let ghost p0 = p.pos as int;
    p.advance();
    let var = match peek_word(p) {
        Some(v) => {
            p.advance();
            v
        },
        None => return Err(parse_error_here(p, "expected loop variable")),
    };
    let ghost p2 = p.pos as int;
    let mut wordlist: Vec<String> = Vec::new();
    if word_is_here(p, "in") {
        p.advance();
        wordlist = read_wordlist(p);
    } else {
        assert(strings_view(wordlist@) =~= Seq::<Seq<char>>::empty());
    }
    match p.peek_type() {
        Some(TokenType::Semicolon) => p.advance(),
        _ => {},
    }
    if !word_is_here(p, "do") {
        return Err(parse_error_here(p, "expected 'do'"));
    }
    p.advance();
    let body = match parse_list_until(p, Stops::Done) {
        Ok(n) => n,
        Err(e) => return Err(e),
    };
    if !word_is_here(p, "done") {
        return Err(parse_error_here(p, "expected 'done'"));
    }
    p.advance();
    Ok(AstNode::For(ForStmt { var, wordlist, body: Box::new(body) }))
}

pub open spec fn parse_result_view(r: Result<AstNode, ShellError>) -> Result<AstV, ErrorV> {
    match r {
        Ok(n) => Ok(n@),
        Err(e) => Err(e@),
    }
}

/// Parses the tokens of one command line into a syntax tree.
pub fn parse(tokens: &[Token]) -> (r: Result<AstNode, ShellError>)
    ensures
        parse_result_view(r) == parse_spec(tokens_view(tokens@)),
{
    let mut p = Parser::new(tokens);
    parse_toplevel(&mut p)
}

fn parse_toplevel(p: &mut Parser) -> (r: Result<AstNode, ShellError>)
    requires
        old(p).pos == 0,
    ensures
        parse_result_view(r) == parse_spec(old(p).toks()),
{
    let node = match parse_list_until(p, Stops::Nothing) {
        Ok(n) => n,
        Err(e) => return Err(e),
    };
    if p.peek().is_some() && !is_reserved(p) {
        return Err(parse_error_here(p, "unexpected token"));
    }
    Ok(node)
}


// ---------------------------------------------------------------------------
// Laws of the grammar
// ---------------------------------------------------------------------------

/// A failed parse is a parse error that quotes the text of the token at
/// which parsing stopped, or `end of input` where there is no such token
/// or it has no text (an operator).
pub open spec fn parse_error_ok(t: Seq<TokenV>, e: ErrorV) -> bool {
    e matches ErrorV::Parse { near: Some(n), .. } && exists|p: int|
        0 <= p <= t.len() && n == #[trigger] near_text(t, p)
}

/// Every pipeline in the tree joins between two and `MAX_PIPE_CMDS`
/// commands, none of them empty.
pub open spec fn pipelines_ok(n: AstV) -> bool
    decreases n,
{
    match n {
        AstV::Command(_) => true,
        AstV::Pipeline(cs) => 2 <= cs.len() <= MAX_PIPE_CMDS && forall|i: int|
            0 <= i < cs.len() ==> !command_is_empty(#[trigger] cs[i]),
        AstV::And(l, r) => pipelines_ok(*l) && pipelines_ok(*r),
        AstV::Or(l, r) => pipelines_ok(*l) && pipelines_ok(*r),
        AstV::Semicolon(l, r) => pipelines_ok(*l) && pipelines_ok(*r),
        AstV::Background(b) => pipelines_ok(*b),
        AstV::If(c, th, el) => pipelines_ok(*c) && pipelines_ok(*th) && match el {
            Some(b) => pipelines_ok(*b),
            None => true,
        },
        AstV::While(c, b) => pipelines_ok(*c) && pipelines_ok(*b),
        AstV::For(_, _, b) => pipelines_ok(*b),
        AstV::Group(b) => pipelines_ok(*b),
    }
}

proof fn lemma_parse_error(msg: Seq<char>, t: Seq<TokenV>, pos: int)
    ensures
        parse_error_ok(t, parse_error(msg, t, pos)),
{
    if 0 <= pos <= t.len() {
        assert(near_text(t, pos) == near_text(t, pos));
    } else {
        assert(near_text(t, pos) == near_text(t, t.len() as int));
    }
}

proof fn lemma_command_from_errors(t: Seq<TokenV>, pos: int, cmd: CommandV)
    ensures
        command_from(t, pos, cmd) matches Err(e) ==> parse_error_ok(t, e),
    decreases t.len() - pos,
{
    if 0 <= pos < t.len() {
        let tok = t[pos];
        if !is_terminator(tok.type_) {
            lemma_parse_error("expected a word"@, t, pos + 1);
            match tok.type_ {
                TokenType::Word | TokenType::Arith | TokenType::Var | TokenType::VarBrace => {
                    lemma_command_from_errors(t, pos + 1, with_arg(cmd, arg_of(tok)));
                },
                TokenType::Assign => {
                    lemma_command_from_errors(t, pos + 1, with_assign(cmd, tok.text()));
                    lemma_command_from_errors(t, pos + 1, with_arg(cmd, tok.text()));
                },
                TokenType::RedirectIn | TokenType::RedirectOut | TokenType::RedirectAppend
                | TokenType::RedirectHeredoc => {
                    if let Ok(w) = expect_word_spec(t, pos + 1) {
                        lemma_command_from_errors(t, pos + 2, CommandV { infile: Some(w), ..cmd });
                        lemma_command_from_errors(
                            t,
                            pos + 2,
                            CommandV { outfile: Some(w), append_out: false, ..cmd },
                        );
                        lemma_command_from_errors(
                            t,
                            pos + 2,
                            CommandV { outfile: Some(w), append_out: true, ..cmd },
                        );
                        lemma_command_from_errors(
                            t,
                            pos + 2,
                            CommandV { heredoc_delim: Some(w), ..cmd },
                        );
                    }
                },
                _ => {},
            }
        }
    }
}

proof fn lemma_pipeline_rest(t: Seq<TokenV>, pos: int, cmds: Seq<CommandV>)
    requires
        0 <= pos <= t.len(),
        cmds.len() <= MAX_PIPE_CMDS,
        forall|i: int| 0 <= i < cmds.len() ==> !command_is_empty(#[trigger] cmds[i]),
    ensures
        match pipeline_rest(t, pos, cmds) {
            Ok((cs, q)) => {
                &&& pos <= q <= t.len()
                &&& cmds.len() <= cs.len() <= MAX_PIPE_CMDS
                &&& forall|i: int| 0 <= i < cs.len() ==> !command_is_empty(#[trigger] cs[i])
                &&& type_at(t, pos) == Some(TokenType::Pipe) ==> cs.len() > cmds.len()
            },
            Err(e) => parse_error_ok(t, e),
        },
    decreases t.len() - pos,
{
    if type_at(t, pos) == Some(TokenType::Pipe) {
        lemma_parse_error("pipeline too long"@, t, pos);
        if cmds.len() < MAX_PIPE_CMDS {
            lemma_command_from(t, pos + 1, empty_command());
            lemma_command_from_errors(t, pos + 1, empty_command());
            if let Ok((c, q)) = command_from(t, pos + 1, empty_command()) {
                lemma_parse_error("expected a command in pipeline"@, t, q);
                if !command_is_empty(c) {
                    let next = cmds.push(c);
                    assert forall|i: int| 0 <= i < next.len() implies !command_is_empty(
                        #[trigger] next[i],
                    ) by {
                        if i < cmds.len() {
                            assert(next[i] == cmds[i]);
                        }
                    }
                    lemma_pipeline_rest(t, q, next);
                }
            }
        }
    }
}

proof fn lemma_simple(t: Seq<TokenV>, pos: int)
    requires
        0 <= pos <= t.len(),
    ensures
        match simple_spec(t, pos) {
            Ok((Some(n), q)) => pos < q <= t.len() && pipelines_ok(n),
            Ok((None, _)) => false,
            Err(e) => parse_error_ok(t, e),
        },
{
    lemma_command_from(t, pos, empty_command());
    lemma_command_from_errors(t, pos, empty_command());
    if let Ok((first, p)) = command_from(t, pos, empty_command()) {
        lemma_parse_error("empty command"@, t, p);
        if !command_is_empty(first) && type_at(t, p) == Some(TokenType::Pipe) {
            let one = seq![first];
            assert forall|i: int| 0 <= i < one.len() implies !command_is_empty(
                #[trigger] one[i],
            ) by {
                assert(one[i] == first);
            }
            lemma_pipeline_rest(t, p, one);
        }
    }
}

proof fn lemma_background_last(n: AstV)
    requires
        pipelines_ok(n),
    ensures
        pipelines_ok(background_last_spec(n)),
    decreases n,
{
    if let AstV::Semicolon(_, right) = n {
        lemma_background_last(*right);
    }
}

proof fn lemma_wordlist_from(t: Seq<TokenV>, pos: int, acc: Seq<Seq<char>>)
    ensures
        wordlist_from(t, pos, acc).1 >= pos,
    decreases t.len() - pos,
{
    if let Some(w) = word_at(t, pos) {
        if !reserved_word(w) {
            lemma_wordlist_from(t, pos + 1, acc.push(w));
        }
    }
}

proof fn lemma_list_until(t: Seq<TokenV>, pos: int, stops: Stops)
    requires
        0 <= pos <= t.len(),
    ensures
        match list_until_spec(t, pos, stops) {
            Ok((n, q)) => pos <= q <= t.len() && pipelines_ok(n),
            Err(e) => parse_error_ok(t, e),
        },
    decreases t.len() - pos, 5int,
{
    lemma_component(t, pos);
    if let Ok((Some(n), q)) = component_spec(t, pos) {
        lemma_list_loop(t, q, stops, n);
    }
}

proof fn lemma_list_loop(t: Seq<TokenV>, pos: int, stops: Stops, left: AstV)
    requires
        0 <= pos <= t.len(),
        pipelines_ok(left),
    ensures
        match list_loop_spec(t, pos, stops, left) {
            Ok((n, q)) => pos <= q <= t.len() && pipelines_ok(n),
            Err(e) => parse_error_ok(t, e),
        },
    decreases t.len() - pos, 2int,
{
    if !at_stop(t, pos, stops) {
        if let Some(ty) = type_at(t, pos) {
            if ty == TokenType::Semicolon || ty == TokenType::And || ty == TokenType::Or {
                if !at_stop(t, pos + 1, stops) {
                    lemma_component(t, pos + 1);
                    if let Ok((Some(right), q)) = component_spec(t, pos + 1) {
                        lemma_list_loop(t, q, stops, combine(ty, left, right));
                    }
                }
            } else if ty == TokenType::Background {
                let bg = background_last_spec(left);
                lemma_background_last(left);
                if !(at_stop(t, pos + 1, stops) || pos + 1 >= t.len()) {
                    lemma_component(t, pos + 1);
                    if let Ok((Some(right), q)) = component_spec(t, pos + 1) {
                        lemma_list_loop(
                            t,
                            q,
                            stops,
                            AstV::Semicolon(Box::new(bg), Box::new(right)),
                        );
                    }
                }
            }
        }
    }
}

proof fn lemma_component(t: Seq<TokenV>, pos: int)
    requires
        0 <= pos <= t.len(),
    ensures
        match component_spec(t, pos) {
            Ok((Some(n), q)) => pos < q <= t.len() && pipelines_ok(n),
            Ok((None, q)) => q == pos,
            Err(e) => parse_error_ok(t, e),
        },
    decreases t.len() - pos, 4int,
{
    if type_at(t, pos) == Some(TokenType::GroupOpen) {
        lemma_group(t, pos);
    } else if reserved_at(t, pos) {
        if word_is(t, pos, "if"@) {
            lemma_if(t, pos);
        } else if word_is(t, pos, "while"@) {
            lemma_while(t, pos);
        } else if word_is(t, pos, "for"@) {
            lemma_for(t, pos);
        }
    } else {
        lemma_simple(t, pos);
    }
}

proof fn lemma_group(t: Seq<TokenV>, pos: int)
    requires
        0 <= pos < t.len(),
    ensures
        match group_spec(t, pos) {
            Ok((n, q)) => pos < q <= t.len() && pipelines_ok(n),
            Err(e) => parse_error_ok(t, e),
        },
    decreases t.len() - pos, 3int,
{
    lemma_list_until(t, pos + 1, Stops::Nothing);
    if let Ok((_, q)) = list_until_spec(t, pos + 1, Stops::Nothing) {
        lemma_parse_error("expected ')'"@, t, q);
    }
}

proof fn lemma_if(t: Seq<TokenV>, pos: int)
    requires
        0 <= pos < t.len(),
    ensures
        match if_spec(t, pos) {
            Ok((n, q)) => pos < q <= t.len() && pipelines_ok(n),
            Err(e) => parse_error_ok(t, e),
        },
    decreases t.len() - pos, 3int,
{
    lemma_list_until(t, pos + 1, Stops::Then);
    if let Ok((_, q1)) = list_until_spec(t, pos + 1, Stops::Then) {
        lemma_parse_error("expected 'then'"@, t, q1);
        if word_is(t, q1, "then"@) {
            lemma_list_until(t, q1 + 1, Stops::ElseElifFi);
            if let Ok((_, q2)) = list_until_spec(t, q1 + 1, Stops::ElseElifFi) {
                lemma_if_tail(t, q2);
                if let Ok((_, q3)) = if_tail_spec(t, q2) {
                    lemma_parse_error("expected 'fi'"@, t, q3);
                }
            }
        }
    }
}

proof fn lemma_if_tail(t: Seq<TokenV>, pos: int)
    requires
        0 <= pos <= t.len(),
    ensures
        match if_tail_spec(t, pos) {
            Ok((e, q)) => pos <= q <= t.len() && (e matches Some(b) ==> pipelines_ok(*b)),
            Err(e) => parse_error_ok(t, e),
        },
    decreases t.len() - pos, 3int,
{
    if word_is(t, pos, "elif"@) {
        lemma_list_until(t, pos + 1, Stops::Then);
        if let Ok((_, q1)) = list_until_spec(t, pos + 1, Stops::Then) {
            lemma_parse_error("expected 'then'"@, t, q1);
            if word_is(t, q1, "then"@) {
                lemma_list_until(t, q1 + 1, Stops::ElseElifFi);
                if let Ok((_, q2)) = list_until_spec(t, q1 + 1, Stops::ElseElifFi) {
                    lemma_if_tail(t, q2);
                }
            }
        }
    } else if word_is(t, pos, "else"@) {
        lemma_list_until(t, pos + 1, Stops::Fi);
    }
}

proof fn lemma_while(t: Seq<TokenV>, pos: int)
    requires
        0 <= pos < t.len(),
    ensures
        match while_spec(t, pos) {
            Ok((n, q)) => pos < q <= t.len() && pipelines_ok(n),
            Err(e) => parse_error_ok(t, e),
        },
    decreases t.len() - pos, 3int,
{
    lemma_list_until(t, pos + 1, Stops::Do);
    if let Ok((_, q1)) = list_until_spec(t, pos + 1, Stops::Do) {
        lemma_parse_error("expected 'do'"@, t, q1);
        if word_is(t, q1, "do"@) {
            lemma_list_until(t, q1 + 1, Stops::Done);
            if let Ok((_, q2)) = list_until_spec(t, q1 + 1, Stops::Done) {
                lemma_parse_error("expected 'done'"@, t, q2);
            }
        }
    }
}

proof fn lemma_for(t: Seq<TokenV>, pos: int)
    requires
        0 <= pos < t.len(),
    ensures
        match for_spec(t, pos) {
            Ok((n, q)) => pos < q <= t.len() && pipelines_ok(n),
            Err(e) => parse_error_ok(t, e),
        },
    decreases t.len() - pos, 3int,
{
    lemma_parse_error("expected loop variable"@, t, pos + 1);
    if let Some(var) = word_at(t, pos + 1) {
        let p2 = pos + 2;
        lemma_wordlist_from(t, p2 + 1, Seq::empty());
        let (words, p3) = if word_is(t, p2, "in"@) {
            wordlist_from(t, p2 + 1, Seq::empty())
        } else {
            (Seq::empty(), p2)
        };
        let p4 = if type_at(t, p3) == Some(TokenType::Semicolon) {
            p3 + 1
        } else {
            p3
        };
        lemma_parse_error("expected 'do'"@, t, p4);
        if word_is(t, p4, "do"@) {
            lemma_list_until(t, p4 + 1, Stops::Done);
            if let Ok((_, q)) = list_until_spec(t, p4 + 1, Stops::Done) {
                lemma_parse_error("expected 'done'"@, t, q);
            }
        }
    }
}

/// A line either parses into a tree whose every pipeline joins two to
/// `MAX_PIPE_CMDS` non-empty commands (a lone command is never a
/// pipeline), or fails with a parse error that quotes the token at which
/// parsing stopped, or `end of input` where that token has no text.
pub proof fn law_parse_outcome(t: Seq<TokenV>)
    ensures
        parse_spec(t) matches Ok(n) ==> pipelines_ok(n),
        parse_spec(t) matches Err(e) ==> parse_error_ok(t, e),
{
    lemma_list_until(t, 0, Stops::Nothing);
    if let Ok((_, q)) = list_until_spec(t, 0, Stops::Nothing) {
        lemma_parse_error("unexpected token"@, t, q);
    }
}


/// A word token.
pub open spec fn word_tok(w: Seq<char>) -> TokenV {
    TokenV { type_: TokenType::Word, value: Some(w), quoted: false }
}

/// A `;` token.
pub open spec fn semi_tok() -> TokenV {
    TokenV { type_: TokenType::Semicolon, value: None, quoted: false }
}

/// The command made of the one word `w`.
pub open spec fn word_command(w: Seq<char>) -> AstV {
    AstV::Command(
        CommandV {
            argv: seq![w],
            env_assigns: Seq::empty(),
            infile: None,
            outfile: None,
            append_out: false,
            heredoc_delim: None,
        },
    )
}

/// A command word, then `;`, then a word that stops the list.
proof fn lemma_list_of_one(t: Seq<TokenV>, pos: int, stops: Stops, w: Seq<char>)
    requires
        0 <= pos,
        pos + 2 < t.len(),
        t[pos] == word_tok(w),
        !reserved_word(w),
        t[pos + 1] == semi_tok(),
        at_stop(t, pos + 2, stops),
    ensures
        list_until_spec(t, pos, stops) == Ok::<(AstV, int), ErrorV>((word_command(w), pos + 2)),
{
    let c = with_arg(empty_command(), w);
    assert(c.argv =~= seq![w]);
    assert(AstV::Command(c) == word_command(w));
    assert(command_from(t, pos + 1, c) == Ok::<(CommandV, int), ErrorV>((c, pos + 1)));
    assert(arg_of(t[pos]) == w);
    assert(command_from(t, pos, empty_command()) == Ok::<(CommandV, int), ErrorV>((c, pos + 1)));
    assert(!command_is_empty(c));
    assert(simple_spec(t, pos) == Ok::<(Option<AstV>, int), ErrorV>((Some(AstV::Command(c)), pos + 1)));
    assert(!reserved_at(t, pos));
    assert(component_spec(t, pos) == Ok::<(Option<AstV>, int), ErrorV>((Some(AstV::Command(c)), pos + 1)));
    assert(!at_stop(t, pos + 1, stops));
    assert(list_loop_spec(t, pos + 1, stops, AstV::Command(c)) == Ok::<(AstV, int), ErrorV>(
        (AstV::Command(c), pos + 2),
    ));
}

/// The tokens of `if c1; then t1; elif c2; then t2; else e; fi`.
pub open spec fn if_elif_else_tokens(
    c1: Seq<char>,
    t1: Seq<char>,
    c2: Seq<char>,
    t2: Seq<char>,
    e: Seq<char>,
) -> Seq<TokenV> {
    seq![
        word_tok("if"@), word_tok(c1), semi_tok(), word_tok("then"@), word_tok(t1), semi_tok(),
        word_tok("elif"@), word_tok(c2), semi_tok(), word_tok("then"@), word_tok(t2), semi_tok(),
        word_tok("else"@), word_tok(e), semi_tok(), word_tok("fi"@),
    ]
}

/// An `elif` branch keeps what follows it as its own else part: the line
/// `if c1; then t1; elif c2; then t2; else e; fi` parses as `c1` with the
/// branch `t1` and, as its else part, `c2` with the branch `t2` and the
/// else part `e`, for any commands `c1`, `t1`, `c2`, `t2` and `e` that are
/// not reserved words.
pub proof fn law_elif_keeps_its_else(
    c1: Seq<char>,
    t1: Seq<char>,
    c2: Seq<char>,
    t2: Seq<char>,
    e: Seq<char>,
)
    requires
        !reserved_word(c1),
        !reserved_word(t1),
        !reserved_word(c2),
        !reserved_word(t2),
        !reserved_word(e),
    ensures
        parse_spec(if_elif_else_tokens(c1, t1, c2, t2, e)) == Ok::<AstV, ErrorV>(
            AstV::If(
                Box::new(word_command(c1)),
                Box::new(word_command(t1)),
                Some(
                    Box::new(
                        AstV::If(
                            Box::new(word_command(c2)),
                            Box::new(word_command(t2)),
                            Some(Box::new(word_command(e))),
                        ),
                    ),
                ),
            ),
        ),
{
    reveal_strlit("if");
    reveal_strlit("then");
    reveal_strlit("elif");
    reveal_strlit("else");
    reveal_strlit("fi");
    let t = if_elif_else_tokens(c1, t1, c2, t2, e);
    assert(t.len() == 16);
    assert("else"@[3] != "elif"@[3]);
    assert("else"@ != "elif"@);
    assert(!word_is(t, 12, "elif"@));
    assert(word_is(t, 3, "then"@));
    assert(word_is(t, 9, "then"@));
    assert(word_is(t, 6, "elif"@));
    assert(word_is(t, 12, "else"@));
    assert(word_is(t, 15, "fi"@));
    lemma_list_of_one(t, 13, Stops::Fi, e);
    assert(if_tail_spec(t, 12) == Ok::<(Option<Box<AstV>>, int), ErrorV>(
        (Some(Box::new(word_command(e))), 15),
    ));
    lemma_list_of_one(t, 7, Stops::Then, c2);
    lemma_list_of_one(t, 10, Stops::ElseElifFi, t2);
    let inner = AstV::If(
        Box::new(word_command(c2)),
        Box::new(word_command(t2)),
        Some(Box::new(word_command(e))),
    );
    assert(if_tail_spec(t, 6) == Ok::<(Option<Box<AstV>>, int), ErrorV>(
        (Some(Box::new(inner)), 15),
    ));
    lemma_list_of_one(t, 1, Stops::Then, c1);
    lemma_list_of_one(t, 4, Stops::ElseElifFi, t1);
    let whole = AstV::If(
        Box::new(word_command(c1)),
        Box::new(word_command(t1)),
        Some(Box::new(inner)),
    );
    assert(if_spec(t, 0) == Ok::<(AstV, int), ErrorV>((whole, 16)));
    assert(reserved_at(t, 0));
    assert(component_spec(t, 0) == Ok::<(Option<AstV>, int), ErrorV>((Some(whole), 16)));
    assert(list_loop_spec(t, 16, Stops::Nothing, whole) == Ok::<(AstV, int), ErrorV>((whole, 16)));
    assert(list_until_spec(t, 0, Stops::Nothing) == Ok::<(AstV, int), ErrorV>((whole, 16)));
}

/// A token of kind `ty` that carries no text.
pub open spec fn op_token(ty: TokenType) -> TokenV {
    TokenV { type_: ty, value: None, quoted: false }
}

/// The command with the one word `w` and nothing else.
pub open spec fn word_cmd(w: Seq<char>) -> CommandV {
    CommandV {
        argv: seq![w],
        env_assigns: Seq::empty(),
        infile: None,
        outfile: None,
        append_out: false,
        heredoc_delim: None,
    }
}

/// A lone command word, followed by the end or by a token that ends a
/// command other than `|`, is that command.
proof fn lemma_word_component(t: Seq<TokenV>, pos: int, w: Seq<char>)
    requires
        0 <= pos < t.len(),
        t[pos] == word_tok(w),
        !reserved_word(w),
        pos + 1 == t.len() || (is_terminator(t[pos + 1].type_) && t[pos + 1].type_
            != TokenType::Pipe),
    ensures
        command_from(t, pos, empty_command()) == Ok::<(CommandV, int), ErrorV>(
            (word_cmd(w), pos + 1),
        ),
        component_spec(t, pos) == Ok::<(Option<AstV>, int), ErrorV>(
            (Some(AstV::Command(word_cmd(w))), pos + 1),
        ),
{
    let c = with_arg(empty_command(), w);
    assert(c.argv =~= seq![w]);
    assert(c == word_cmd(w));
    assert(command_from(t, pos + 1, c) == Ok::<(CommandV, int), ErrorV>((c, pos + 1)));
    assert(arg_of(t[pos]) == w);
    assert(!command_is_empty(c));
    assert(!reserved_at(t, pos));
}

/// `c1 && c2`, `c1 || c2` and `c1 ; c2` join their two commands in that
/// order: the first runs, then the second as the operator says.
pub proof fn law_binary_lists(c1: Seq<char>, c2: Seq<char>)
    requires
        !reserved_word(c1),
        !reserved_word(c2),
    ensures
        parse_spec(seq![word_tok(c1), op_token(TokenType::And), word_tok(c2)]) == Ok::<
            AstV,
            ErrorV,
        >(AstV::And(Box::new(word_command(c1)), Box::new(word_command(c2)))),
        parse_spec(seq![word_tok(c1), op_token(TokenType::Or), word_tok(c2)]) == Ok::<
            AstV,
            ErrorV,
        >(AstV::Or(Box::new(word_command(c1)), Box::new(word_command(c2)))),
        parse_spec(seq![word_tok(c1), op_token(TokenType::Semicolon), word_tok(c2)]) == Ok::<
            AstV,
            ErrorV,
        >(AstV::Semicolon(Box::new(word_command(c1)), Box::new(word_command(c2)))),
{
    lemma_binary_list(c1, c2, TokenType::And);
    lemma_binary_list(c1, c2, TokenType::Or);
    lemma_binary_list(c1, c2, TokenType::Semicolon);
}

proof fn lemma_binary_list(c1: Seq<char>, c2: Seq<char>, ty: TokenType)
    requires
        !reserved_word(c1),
        !reserved_word(c2),
        ty == TokenType::And || ty == TokenType::Or || ty == TokenType::Semicolon,
    ensures
        parse_spec(seq![word_tok(c1), op_token(ty), word_tok(c2)]) == Ok::<AstV, ErrorV>(
            combine(ty, word_command(c1), word_command(c2)),
        ),
{
    let t = seq![word_tok(c1), op_token(ty), word_tok(c2)];
    lemma_word_component(t, 0, c1);
    lemma_word_component(t, 2, c2);
    assert(word_command(c1) == AstV::Command(word_cmd(c1)));
    assert(word_command(c2) == AstV::Command(word_cmd(c2)));
    let whole = combine(ty, word_command(c1), word_command(c2));
    assert(list_loop_spec(t, 3, Stops::Nothing, whole) == Ok::<(AstV, int), ErrorV>((whole, 3)));
    assert(!at_stop(t, 2, Stops::Nothing));
    assert(list_loop_spec(t, 1, Stops::Nothing, word_command(c1)) == Ok::<(AstV, int), ErrorV>(
        (whole, 3),
    ));
    assert(list_until_spec(t, 0, Stops::Nothing) == Ok::<(AstV, int), ErrorV>((whole, 3)));
}

/// `c1 | c2` is the pipeline of the two commands, in order.
pub proof fn law_two_command_pipeline(c1: Seq<char>, c2: Seq<char>)
    requires
        !reserved_word(c1),
        !reserved_word(c2),
    ensures
        parse_spec(seq![word_tok(c1), op_token(TokenType::Pipe), word_tok(c2)]) == Ok::<
            AstV,
            ErrorV,
        >(AstV::Pipeline(seq![word_cmd(c1), word_cmd(c2)])),
{
    let t = seq![word_tok(c1), op_token(TokenType::Pipe), word_tok(c2)];
    let a = with_arg(empty_command(), c1);
    let b = with_arg(empty_command(), c2);
    assert(a.argv =~= seq![c1]);
    assert(b.argv =~= seq![c2]);
    assert(a == word_cmd(c1) && b == word_cmd(c2));
    assert(command_from(t, 1, a) == Ok::<(CommandV, int), ErrorV>((a, 1)));
    assert(command_from(t, 0, empty_command()) == Ok::<(CommandV, int), ErrorV>((a, 1)));
    assert(command_from(t, 3, b) == Ok::<(CommandV, int), ErrorV>((b, 3)));
    assert(command_from(t, 2, empty_command()) == Ok::<(CommandV, int), ErrorV>((b, 3)));
    assert(!command_is_empty(a) && !command_is_empty(b));
    assert(seq![a].push(b) =~= seq![a, b]);
    assert(pipeline_rest(t, 3, seq![a, b]) == Ok::<(Seq<CommandV>, int), ErrorV>(
        (seq![a, b], 3),
    ));
    assert(pipeline_rest(t, 1, seq![a]) == Ok::<(Seq<CommandV>, int), ErrorV>((seq![a, b], 3)));
    assert(!reserved_at(t, 0));
    let whole = AstV::Pipeline(seq![a, b]);
    assert(component_spec(t, 0) == Ok::<(Option<AstV>, int), ErrorV>((Some(whole), 3)));
    assert(list_loop_spec(t, 3, Stops::Nothing, whole) == Ok::<(AstV, int), ErrorV>((whole, 3)));
    assert(list_until_spec(t, 0, Stops::Nothing) == Ok::<(AstV, int), ErrorV>((whole, 3)));
}

/// `c > f`, `c >> f`, `c < f` and `c << d` attach their word to the
/// command: as its output (replaced, or appended to), its input, or the
/// end marker of its here document.
pub proof fn law_redirections(c: Seq<char>, f: Seq<char>)
    requires
        !reserved_word(c),
    ensures
        parse_spec(seq![word_tok(c), op_token(TokenType::RedirectOut), word_tok(f)]) == Ok::<
            AstV,
            ErrorV,
        >(AstV::Command(CommandV { outfile: Some(f), append_out: false, ..word_cmd(c) })),
        parse_spec(seq![word_tok(c), op_token(TokenType::RedirectAppend), word_tok(f)]) == Ok::<
            AstV,
            ErrorV,
        >(AstV::Command(CommandV { outfile: Some(f), append_out: true, ..word_cmd(c) })),
        parse_spec(seq![word_tok(c), op_token(TokenType::RedirectIn), word_tok(f)]) == Ok::<
            AstV,
            ErrorV,
        >(AstV::Command(CommandV { infile: Some(f), ..word_cmd(c) })),
        parse_spec(seq![word_tok(c), op_token(TokenType::RedirectHeredoc), word_tok(f)]) == Ok::<
            AstV,
            ErrorV,
        >(AstV::Command(CommandV { heredoc_delim: Some(f), ..word_cmd(c) })),
{
    lemma_redirection(c, f, TokenType::RedirectOut);
    lemma_redirection(c, f, TokenType::RedirectAppend);
    lemma_redirection(c, f, TokenType::RedirectIn);
    lemma_redirection(c, f, TokenType::RedirectHeredoc);
}

proof fn lemma_redirection(c: Seq<char>, f: Seq<char>, ty: TokenType)
    requires
        !reserved_word(c),
        ty == TokenType::RedirectOut || ty == TokenType::RedirectAppend || ty
            == TokenType::RedirectIn || ty == TokenType::RedirectHeredoc,
    ensures
        ({
            let base = word_cmd(c);
            let r = if ty == TokenType::RedirectOut {
                CommandV { outfile: Some(f), append_out: false, ..base }
            } else if ty == TokenType::RedirectAppend {
                CommandV { outfile: Some(f), append_out: true, ..base }
            } else if ty == TokenType::RedirectIn {
                CommandV { infile: Some(f), ..base }
            } else {
                CommandV { heredoc_delim: Some(f), ..base }
            };
            parse_spec(seq![word_tok(c), op_token(ty), word_tok(f)]) == Ok::<AstV, ErrorV>(
                AstV::Command(r),
            )
        }),
{
    let t = seq![word_tok(c), op_token(ty), word_tok(f)];
    let a = with_arg(empty_command(), c);
    assert(a.argv =~= seq![c]);
    assert(a == word_cmd(c));
    let r = if ty == TokenType::RedirectOut {
        CommandV { outfile: Some(f), append_out: false, ..a }
    } else if ty == TokenType::RedirectAppend {
        CommandV { outfile: Some(f), append_out: true, ..a }
    } else if ty == TokenType::RedirectIn {
        CommandV { infile: Some(f), ..a }
    } else {
        CommandV { heredoc_delim: Some(f), ..a }
    };
    assert(expect_word_spec(t, 2) == Ok::<Seq<char>, ErrorV>(f));
    assert(command_from(t, 3, r) == Ok::<(CommandV, int), ErrorV>((r, 3)));
    assert(command_from(t, 1, a) == Ok::<(CommandV, int), ErrorV>((r, 3)));
    assert(command_from(t, 0, empty_command()) == Ok::<(CommandV, int), ErrorV>((r, 3)));
    assert(!command_is_empty(r));
    assert(!reserved_at(t, 0));
    let whole = AstV::Command(r);
    assert(component_spec(t, 0) == Ok::<(Option<AstV>, int), ErrorV>((Some(whole), 3)));
    assert(list_loop_spec(t, 3, Stops::Nothing, whole) == Ok::<(AstV, int), ErrorV>((whole, 3)));
    assert(list_until_spec(t, 0, Stops::Nothing) == Ok::<(AstV, int), ErrorV>((whole, 3)));
}

/// `c &` runs the command in the background, and `( c )` in a group.
pub proof fn law_background_and_group(c: Seq<char>)
    requires
        !reserved_word(c),
    ensures
        parse_spec(seq![word_tok(c), op_token(TokenType::Background)]) == Ok::<AstV, ErrorV>(
            AstV::Background(Box::new(word_command(c))),
        ),
        parse_spec(
            seq![op_token(TokenType::GroupOpen), word_tok(c), op_token(TokenType::GroupClose)],
        ) == Ok::<AstV, ErrorV>(AstV::Group(Box::new(word_command(c)))),
{
    let t = seq![word_tok(c), op_token(TokenType::Background)];
    lemma_word_component(t, 0, c);
    assert(word_command(c) == AstV::Command(word_cmd(c)));
    let bg = AstV::Background(Box::new(word_command(c)));
    assert(background_last_spec(word_command(c)) == bg);
    assert(list_loop_spec(t, 1, Stops::Nothing, word_command(c)) == Ok::<(AstV, int), ErrorV>(
        (bg, 2),
    ));
    assert(list_until_spec(t, 0, Stops::Nothing) == Ok::<(AstV, int), ErrorV>((bg, 2)));
    let g = seq![op_token(TokenType::GroupOpen), word_tok(c), op_token(TokenType::GroupClose)];
    lemma_word_component(g, 1, c);
    assert(list_loop_spec(g, 2, Stops::Nothing, word_command(c)) == Ok::<(AstV, int), ErrorV>(
        (word_command(c), 2),
    ));
    assert(list_until_spec(g, 1, Stops::Nothing) == Ok::<(AstV, int), ErrorV>(
        (word_command(c), 2),
    ));
    let gr = AstV::Group(Box::new(word_command(c)));
    assert(group_spec(g, 0) == Ok::<(AstV, int), ErrorV>((gr, 3)));
    assert(component_spec(g, 0) == Ok::<(Option<AstV>, int), ErrorV>((Some(gr), 3)));
    assert(list_loop_spec(g, 3, Stops::Nothing, gr) == Ok::<(AstV, int), ErrorV>((gr, 3)));
    assert(list_until_spec(g, 0, Stops::Nothing) == Ok::<(AstV, int), ErrorV>((gr, 3)));
}

/// `while c; do b; done` loops on the condition `c` with the body `b`.
pub proof fn law_while_loop(c: Seq<char>, b: Seq<char>)
    requires
        !reserved_word(c),
        !reserved_word(b),
    ensures
        parse_spec(
            seq![
                word_tok("while"@), word_tok(c), semi_tok(), word_tok("do"@), word_tok(b),
                semi_tok(), word_tok("done"@),
            ],
        ) == Ok::<AstV, ErrorV>(AstV::While(Box::new(word_command(c)), Box::new(word_command(b)))),
{
    reveal_strlit("while");
    reveal_strlit("do");
    reveal_strlit("done");
    reveal_strlit("if");
    reveal_strlit("for");
    let t = seq![
        word_tok("while"@), word_tok(c), semi_tok(), word_tok("do"@), word_tok(b), semi_tok(),
        word_tok("done"@),
    ];
    assert("while"@[0] != "if"@[0]);
    assert(!word_is(t, 0, "if"@));
    assert(word_is(t, 0, "while"@));
    lemma_list_of_one(t, 1, Stops::Do, c);
    lemma_list_of_one(t, 4, Stops::Done, b);
    let w = AstV::While(Box::new(word_command(c)), Box::new(word_command(b)));
    assert(while_spec(t, 0) == Ok::<(AstV, int), ErrorV>((w, 7)));
    assert(reserved_at(t, 0));
    assert(component_spec(t, 0) == Ok::<(Option<AstV>, int), ErrorV>((Some(w), 7)));
    assert(list_loop_spec(t, 7, Stops::Nothing, w) == Ok::<(AstV, int), ErrorV>((w, 7)));
    assert(list_until_spec(t, 0, Stops::Nothing) == Ok::<(AstV, int), ErrorV>((w, 7)));
}

/// `for v in w1 w2; do b; done` runs the body `b` with the variable `v`
/// over the words `w1` and `w2`, in order.
pub proof fn law_for_loop(v: Seq<char>, w1: Seq<char>, w2: Seq<char>, b: Seq<char>)
    requires
        !reserved_word(w1),
        !reserved_word(w2),
        !reserved_word(b),
    ensures
        parse_spec(
            seq![
                word_tok("for"@), word_tok(v), word_tok("in"@), word_tok(w1), word_tok(w2),
                semi_tok(), word_tok("do"@), word_tok(b), semi_tok(), word_tok("done"@),
            ],
        ) == Ok::<AstV, ErrorV>(AstV::For(v, seq![w1, w2], Box::new(word_command(b)))),
{
    reveal_strlit("for");
    reveal_strlit("in");
    reveal_strlit("do");
    reveal_strlit("done");
    reveal_strlit("if");
    reveal_strlit("while");
    let t = seq![
        word_tok("for"@), word_tok(v), word_tok("in"@), word_tok(w1), word_tok(w2), semi_tok(),
        word_tok("do"@), word_tok(b), semi_tok(), word_tok("done"@),
    ];
    assert("for"@[0] != "if"@[0]);
    assert("for"@[0] != "while"@[0]);
    assert(!word_is(t, 0, "if"@));
    assert(!word_is(t, 0, "while"@));
    assert(word_is(t, 0, "for"@));
    assert(word_is(t, 2, "in"@));
    let none = Seq::<Seq<char>>::empty();
    assert(wordlist_from(t, 5, none.push(w1).push(w2)) == (none.push(w1).push(w2), 5int));
    assert(wordlist_from(t, 4, none.push(w1)) == (none.push(w1).push(w2), 5int));
    assert(wordlist_from(t, 3, none) == (none.push(w1).push(w2), 5int));
    assert(none.push(w1).push(w2) =~= seq![w1, w2]);
    assert(word_is(t, 6, "do"@));
    lemma_list_of_one(t, 7, Stops::Done, b);
    let f = AstV::For(v, seq![w1, w2], Box::new(word_command(b)));
    assert(for_spec(t, 0) == Ok::<(AstV, int), ErrorV>((f, 10)));
    assert(reserved_at(t, 0));
    assert(component_spec(t, 0) == Ok::<(Option<AstV>, int), ErrorV>((Some(f), 10)));
    assert(list_loop_spec(t, 10, Stops::Nothing, f) == Ok::<(AstV, int), ErrorV>((f, 10)));
    assert(list_until_spec(t, 0, Stops::Nothing) == Ok::<(AstV, int), ErrorV>((f, 10)));
}

/// `if c; then t; else e; fi` has the branch `t` for success and `e`
/// otherwise; `if c; then t; fi` has no else part.
pub proof fn law_if_else(c: Seq<char>, t1: Seq<char>, e: Seq<char>)
    requires
        !reserved_word(c),
        !reserved_word(t1),
        !reserved_word(e),
    ensures
        parse_spec(
            seq![
                word_tok("if"@), word_tok(c), semi_tok(), word_tok("then"@), word_tok(t1),
                semi_tok(), word_tok("else"@), word_tok(e), semi_tok(), word_tok("fi"@),
            ],
        ) == Ok::<AstV, ErrorV>(
            AstV::If(
                Box::new(word_command(c)),
                Box::new(word_command(t1)),
                Some(Box::new(word_command(e))),
            ),
        ),
        parse_spec(
            seq![
                word_tok("if"@), word_tok(c), semi_tok(), word_tok("then"@), word_tok(t1),
                semi_tok(), word_tok("fi"@),
            ],
        ) == Ok::<AstV, ErrorV>(
            AstV::If(Box::new(word_command(c)), Box::new(word_command(t1)), None),
        ),
{
    reveal_strlit("if");
    reveal_strlit("then");
    reveal_strlit("elif");
    reveal_strlit("else");
    reveal_strlit("fi");
    let t = seq![
        word_tok("if"@), word_tok(c), semi_tok(), word_tok("then"@), word_tok(t1), semi_tok(),
        word_tok("else"@), word_tok(e), semi_tok(), word_tok("fi"@),
    ];
    assert("else"@[3] != "elif"@[3]);
    assert(!word_is(t, 6, "elif"@));
    assert(word_is(t, 6, "else"@));
    lemma_list_of_one(t, 1, Stops::Then, c);
    lemma_list_of_one(t, 4, Stops::ElseElifFi, t1);
    lemma_list_of_one(t, 7, Stops::Fi, e);
    let x = AstV::If(
        Box::new(word_command(c)),
        Box::new(word_command(t1)),
        Some(Box::new(word_command(e))),
    );
    assert(if_tail_spec(t, 6) == Ok::<(Option<Box<AstV>>, int), ErrorV>(
        (Some(Box::new(word_command(e))), 9),
    ));
    assert(if_spec(t, 0) == Ok::<(AstV, int), ErrorV>((x, 10)));
    assert(reserved_at(t, 0));
    assert(component_spec(t, 0) == Ok::<(Option<AstV>, int), ErrorV>((Some(x), 10)));
    assert(list_loop_spec(t, 10, Stops::Nothing, x) == Ok::<(AstV, int), ErrorV>((x, 10)));
    assert(list_until_spec(t, 0, Stops::Nothing) == Ok::<(AstV, int), ErrorV>((x, 10)));
    let u = seq![
        word_tok("if"@), word_tok(c), semi_tok(), word_tok("then"@), word_tok(t1), semi_tok(),
        word_tok("fi"@),
    ];
    assert("fi"@ != "elif"@);
    assert("fi"@ != "else"@);
    assert(!word_is(u, 6, "elif"@));
    assert(!word_is(u, 6, "else"@));
    lemma_list_of_one(u, 1, Stops::Then, c);
    lemma_list_of_one(u, 4, Stops::ElseElifFi, t1);
    let y = AstV::If(Box::new(word_command(c)), Box::new(word_command(t1)), None);
    assert(if_tail_spec(u, 6) == Ok::<(Option<Box<AstV>>, int), ErrorV>((None, 6)));
    assert(if_spec(u, 0) == Ok::<(AstV, int), ErrorV>((y, 7)));
    assert(reserved_at(u, 0));
    assert(component_spec(u, 0) == Ok::<(Option<AstV>, int), ErrorV>((Some(y), 7)));
    assert(list_loop_spec(u, 7, Stops::Nothing, y) == Ok::<(AstV, int), ErrorV>((y, 7)));
    assert(list_until_spec(u, 0, Stops::Nothing) == Ok::<(AstV, int), ErrorV>((y, 7)));
}

} // verus!
