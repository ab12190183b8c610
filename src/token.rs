use vstd::prelude::*;

verus! {

/// The class of a lexeme.
#[derive(Clone, Copy, Debug, PartialEq, Eq, Structural)]
pub enum TokenKind {
    Add,
    Number,
    Whitespace,
}

/// A classified lexeme, carrying the exact text that was matched.
#[derive(Clone, Debug)]
pub enum Token {
    Add(String),
    Number(String),
    Whitespace(String),
}

impl Token {
    pub open spec fn kind(&self) -> TokenKind {
        match self {
            Token::Add(_) => TokenKind::Add,
            Token::Number(_) => TokenKind::Number,
            Token::Whitespace(_) => TokenKind::Whitespace,
        }
    }

    pub open spec fn text(&self) -> Seq<char> {
        match self {
            Token::Add(s) => s@,
            Token::Number(s) => s@,
            Token::Whitespace(s) => s@,
        }
    }
}

impl View for Token {
    type V = (TokenKind, Seq<char>);

    open spec fn view(&self) -> (TokenKind, Seq<char>) {
        (self.kind(), self.text())
    }
}

/// The views of a sequence of tokens.
pub open spec fn views(ts: Seq<Token>) -> Seq<(TokenKind, Seq<char>)> {
    ts.map_values(|t: Token| t@)
}

pub open spec fn is_digit(c: char) -> bool {
    '0' <= c && c <= '9'
}

pub open spec fn is_space(c: char) -> bool {
    c == ' ' || c == '\t' || c == '\n'
}

/// The class that a single character belongs to, if any.
pub open spec fn char_kind(c: char) -> Option<TokenKind> {
    if c == '+' {
        Some(TokenKind::Add)
    } else if is_digit(c) {
        Some(TokenKind::Number)
    } else if is_space(c) {
        Some(TokenKind::Whitespace)
    } else {
        None
    }
}

/// A non-empty run of ASCII digits.
pub open spec fn is_digit_run(s: Seq<char>) -> bool {
    s.len() > 0 && forall|i: int| 0 <= i < s.len() ==> is_digit(#[trigger] s[i])
}

/// A non-empty run of spaces, tabs and newlines.
pub open spec fn is_space_run(s: Seq<char>) -> bool {
    s.len() > 0 && forall|i: int| 0 <= i < s.len() ==> is_space(#[trigger] s[i])
}

/// The three recognizers, tried in priority order: `+`, then digits, then
/// whitespace.
pub open spec fn classify(s: Seq<char>) -> Option<TokenKind> {
    if s == seq!['+'] {
        Some(TokenKind::Add)
    } else if is_digit_run(s) {
        Some(TokenKind::Number)
    } else if is_space_run(s) {
        Some(TokenKind::Whitespace)
    } else {
        None
    }
}

/// A token whose text is recognized as its own kind.
pub open spec fn well_formed(t: (TokenKind, Seq<char>)) -> bool {
    classify(t.1) == Some(t.0)
}

pub fn is_ws(t: &Token) -> (r: bool)
    ensures
        r == (t.kind() == TokenKind::Whitespace),
{
    match t {
        Token::Whitespace(_) => true,
        _ => false,
    }
}

} // verus!
