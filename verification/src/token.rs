use vstd::prelude::*;

verus! {

/// The kinds of token the lexer produces.
#[derive(Debug, Clone, Copy, PartialEq, Eq, Structural)]
pub enum TokenType {
    Word,
    Assign,
    Var,
    VarBrace,
    Arith,
    GroupOpen,
    GroupClose,
    Pipe,
    And,
    Or,
    Semicolon,
    Background,
    RedirectIn,
    RedirectOut,
    RedirectAppend,
    RedirectClobber,
    RedirectBothOut,
    RedirectHeredoc,
    RedirectHeredocTab,
}

/// One lexical token: its kind, its text (absent for operators), and
/// whether quoting or escaping occurred inside it.
#[derive(Debug, Clone, PartialEq, Eq)]
pub struct Token {
    pub type_: TokenType,
    pub value: Option<String>,
    pub quoted: bool,
}

/// The mathematical model of a token.
#[verifier::ext_equal]
pub struct TokenV {
    pub type_: TokenType,
    pub value: Option<Seq<char>>,
    pub quoted: bool,
}

impl TokenV {
    /// The token's text, empty when it carries none.
    pub open spec fn text(self) -> Seq<char> {
        match self.value {
            Some(v) => v,
            None => Seq::empty(),
        }
    }
}

pub open spec fn opt_view(o: Option<String>) -> Option<Seq<char>> {
    match o {
        Some(s) => Some(s@),
        None => None,
    }
}

impl View for Token {
    type V = TokenV;

    open spec fn view(&self) -> TokenV {
        TokenV { type_: self.type_, value: opt_view(self.value), quoted: self.quoted }
    }
}

/// The model of a sequence of tokens.
pub open spec fn tokens_view(s: Seq<Token>) -> Seq<TokenV> {
    s.map_values(|t: Token| t@)
}

impl Token {
    /// The token's text, or the empty string for an operator.
    pub fn text(&self) -> (r: &str)
        ensures
            r@ == self@.text(),
    {
        match &self.value {
            Some(v) => v.as_str(),
            None => {
                proof {
                    reveal_strlit("");
                }
                ""
            },
        }
    }
}

} // verus!
