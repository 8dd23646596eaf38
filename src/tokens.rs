use vstd::prelude::*;

verus! {

/// A token: its lexical category and the byte range of its lexeme.
#[derive(Debug, Clone, Copy, PartialEq, Eq, Structural)]
pub struct Token {
    pub span: Span,
    pub kind: TokenKind,
}

impl Token {
    pub fn new(kind: TokenKind, start: usize, offset: usize) -> (r: Token)
        ensures
            r.kind == kind,
            r.span == Span(start, offset),
    {
        Token { span: Span(start, offset), kind }
    }

    /// The end-of-stream sentinel, with an empty span at offset zero.
    pub open spec fn sentinel() -> Token {
        Token { span: Span(0, 0), kind: TokenKind::Eof }
    }
}

impl View for Token {
    type V = Token;

    open spec fn view(&self) -> Token {
        *self
    }
}

impl Default for Token {
    fn default() -> (r: Token)
        ensures
            r == Token::sentinel(),
    {
        Token { span: Span(0, 0), kind: TokenKind::Eof }
    }
}

/// A half-open byte range `[start, end)` into the source text.
#[derive(Debug, Clone, Copy, PartialEq, Eq, Structural)]
pub struct Span(pub usize, pub usize);

impl Span {
    /// The span from the start of `self` to the end of `rhs`.
    pub fn join(&self, rhs: &Span) -> (r: Span)
        ensures
            r == Span(self.0, rhs.1),
    {
        Span(self.0, rhs.1)
    }
}

#[derive(Debug, Clone, Copy, PartialEq, Eq, Structural)]
pub enum TokenKind {
    Return,
    Ident,
    OpenParen,
    CloseParen,
    OpenBrace,
    CloseBrace,
    LiteralInt,
    LiteralFloat,
    LiteralBool,
    SemiColon,
    Comma,
    Eof,
    Error,
}

} // verus!
