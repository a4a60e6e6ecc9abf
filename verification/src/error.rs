use vstd::prelude::*;

verus! {

/// The errors of the lexer, the parser and evaluation.
#[derive(Debug, Clone, PartialEq, Eq)]
pub enum ShellError {
    Lex { message: String, column: usize },
    Parse { message: String, near: Option<String> },
    Eval { message: String },
}

/// The mathematical model of an error.
#[verifier::ext_equal]
pub enum ErrorV {
    Lex { message: Seq<char>, column: int },
    Parse { message: Seq<char>, near: Option<Seq<char>> },
    Eval { message: Seq<char> },
}

impl View for ShellError {
    type V = ErrorV;

    open spec fn view(&self) -> ErrorV {
        match self {
            ShellError::Lex { message, column } => ErrorV::Lex {
                message: message@,
                column: *column as int,
            },
            ShellError::Parse { message, near } => ErrorV::Parse {
                message: message@,
                near: crate::token::opt_view(*near),
            },
            ShellError::Eval { message } => ErrorV::Eval { message: message@ },
        }
    }
}

impl ShellError {
    /// A lexer error with its message and 1-based column.
    pub fn lex(message: &str, column: usize) -> (e: Self)
        ensures
            e@ == (ErrorV::Lex { message: message@, column: column as int }),
    {
        ShellError::Lex { message: crate::text::owned(message), column }
    }

    /// A parser error with its message and the text it was found near.
    pub fn parse(message: &str, near: Option<String>) -> (e: Self)
        ensures
            e@ == (ErrorV::Parse { message: message@, near: crate::token::opt_view(near) }),
    {
        ShellError::Parse { message: crate::text::owned(message), near }
    }

    /// An evaluation error with its message.
    pub fn eval(message: &str) -> (e: Self)
        ensures
            e@ == (ErrorV::Eval { message: message@ }),
    {
        ShellError::Eval { message: crate::text::owned(message) }
    }
}

/// How an error is shown to the user.
pub open spec fn error_text(e: ErrorV) -> Seq<char> {
    match e {
        ErrorV::Lex { message, column } => "shell: lex error at column "@ + crate::num::int_text(
            column,
        ) + ": "@ + message,
        ErrorV::Parse { message, near } => match near {
            Some(n) => "shell: parse error near '"@ + n + "': "@ + message,
            None => "shell: parse error: "@ + message,
        },
        ErrorV::Eval { message } => "shell: "@ + message,
    }
}

impl ShellError {
    /// The text that shows the error.
    pub fn describe(&self) -> (r: String)
        ensures
            r@ == error_text(self@),
    {
        match self {
            ShellError::Lex { message, column } => {
                let mut r = crate::text::owned("shell: lex error at column ");
                let c = crate::num::int_to_string(*column as i128);
                crate::text::push_text(&mut r, c.as_str());
                crate::text::push_text(&mut r, ": ");
                crate::text::push_text(&mut r, message.as_str());
                r
            },
            ShellError::Parse { message, near } => match near {
                Some(n) => {
                    let mut r = crate::text::owned("shell: parse error near '");
                    crate::text::push_text(&mut r, n.as_str());
                    crate::text::push_text(&mut r, "': ");
                    crate::text::push_text(&mut r, message.as_str());
                    r
                },
                None => {
                    let mut r = crate::text::owned("shell: parse error: ");
                    crate::text::push_text(&mut r, message.as_str());
                    r
                },
            },
            ShellError::Eval { message } => {
                let mut r = crate::text::owned("shell: ");
                crate::text::push_text(&mut r, message.as_str());
                r
            },
        }
    }
}

} // verus!
