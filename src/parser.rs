use vstd::prelude::*;

use vstd::string::StringSliceAdditionalSpecFns;

use crate::ast::{
    Block, BlockView, Declaration, DeclarationView, Expression, ExpressionView, Function,
    FunctionView, Ident, IdentView, Literal, LiteralKind, LiteralKindView, LiteralView,
    Parameter, ParameterView, PrimaryExpression, PrimaryView, Primitives, PrimitveType, Program,
    ProgramView, Statement, StatementView, Type,
};
use crate::error::{ErrorView, RscError};
use crate::lexer::{
    is_digit, lemma_classified, lemma_token_lexemes, lex_from, lexemes_agree, word_false, Lexer,
};
use crate::tokens::{Span, Token, TokenKind};
use crate::Res;

verus! {

/// A parse of one production: the value and the position after it, or the error.
pub type Parsed<V> = Result<(V, int), ErrorView>;

/// The token at `p`, or the end-of-stream sentinel past the end.
pub open spec fn tok(ts: Seq<Token>, p: int) -> Token {
    if 0 <= p < ts.len() {
        ts[p]
    } else {
        Token::sentinel()
    }
}

/// The position after consuming the token at `p`.
pub open spec fn next(ts: Seq<Token>, p: int) -> int {
    if 0 <= p < ts.len() {
        p + 1
    } else {
        p
    }
}

pub open spec fn ascii_chars(b: Seq<u8>) -> Seq<char> {
    b.map_values(|x: u8| x as char)
}

/// The source text that a span covers.
pub open spec fn text(s: Seq<u8>, sp: Span) -> Seq<char> {
    ascii_chars(s.subrange(sp.0 as int, sp.1 as int))
}

pub open spec fn unexpected(s: Seq<u8>, t: Token) -> ErrorView {
    ErrorView::UnexpectedToken(text(s, t.span), t)
}

/// The bytes of `void`.
pub open spec fn word_void() -> Seq<u8> {
    seq![118u8, 111, 105, 100]
}

/// The number that a run of decimal digits spells.
pub open spec fn digits_value(w: Seq<u8>) -> nat
    decreases w.len(),
{
    if w.len() == 0 {
        0
    } else {
        digits_value(w.drop_last()) * 10 + (w.last() - 48) as nat
    }
}

pub open spec fn expect_p(ts: Seq<Token>, s: Seq<u8>, p: int, k: TokenKind) -> Parsed<Token> {
    let t = tok(ts, p);
    if t.kind == k {
        Ok((t, next(ts, p)))
    } else {
        Err(unexpected(s, t))
    }
}

pub open spec fn ident_p(ts: Seq<Token>, s: Seq<u8>, p: int) -> Parsed<IdentView> {
    let t = tok(ts, p);
    if t.kind == TokenKind::Ident {
        Ok((IdentView { text: text(s, t.span), span: t.span }, next(ts, p)))
    } else {
        Err(unexpected(s, t))
    }
}

pub open spec fn literal_p(ts: Seq<Token>, s: Seq<u8>, p: int, bit32: bool) -> Parsed<
    PrimaryView,
> {
    let t = tok(ts, p);
    let q = next(ts, p);
    let w = s.subrange(t.span.0 as int, t.span.1 as int);
    let lit = |k: LiteralKindView| PrimaryView::Literal(LiteralView { kind: k, span: t.span });
    if t.kind == TokenKind::LiteralInt {
        if !bit32 {
            Err(ErrorView::Unsupported(t.span))
        } else if digits_value(w) <= i32::MAX {
            Ok((lit(LiteralKindView::Int(digits_value(w) as i32)), q))
        } else {
            Err(ErrorView::ParseNum(t))
        }
    } else if t.kind == TokenKind::LiteralFloat {
        if bit32 {
            Ok((lit(LiteralKindView::Float(text(s, t.span))), q))
        } else {
            Ok((lit(LiteralKindView::Double(text(s, t.span))), q))
        }
    } else if t.kind == TokenKind::LiteralBool && w == word_false() {
        Ok((lit(LiteralKindView::Bool(false)), q))
    } else {
        Err(unexpected(s, t))
    }
}

pub open spec fn primary_p(ts: Seq<Token>, s: Seq<u8>, p: int, bit32: bool) -> Parsed<
    ExpressionView,
> {
    let k = tok(ts, p).kind;
    if k == TokenKind::LiteralInt || k == TokenKind::LiteralFloat || k == TokenKind::LiteralBool {
        match literal_p(ts, s, p, bit32) {
            Ok((v, q)) => Ok((ExpressionView::Primary(v), q)),
            Err(e) => Err(e),
        }
    } else {
        Err(unexpected(s, tok(ts, p)))
    }
}

pub open spec fn return_value_p(ts: Seq<Token>, s: Seq<u8>, p: int) -> Parsed<
    Option<ExpressionView>,
> {
    if tok(ts, p).kind != TokenKind::SemiColon {
        match primary_p(ts, s, p, true) {
            Ok((e, q)) => Ok((Some(e), q)),
            Err(x) => Err(x),
        }
    } else {
        Ok((None, p))
    }
}

pub open spec fn return_p(ts: Seq<Token>, s: Seq<u8>, p: int) -> Parsed<StatementView> {
    match expect_p(ts, s, p, TokenKind::Return) {
        Err(x) => Err(x),
        Ok((_, p1)) => match return_value_p(ts, s, p1) {
            Err(x) => Err(x),
            Ok((v, p2)) => match expect_p(ts, s, p2, TokenKind::SemiColon) {
                Err(x) => Err(x),
                Ok((_, p3)) => Ok((StatementView::Return(v), p3)),
            },
        },
    }
}

pub open spec fn statement_p(ts: Seq<Token>, s: Seq<u8>, p: int) -> Parsed<StatementView> {
    if tok(ts, p).kind == TokenKind::Return {
        return_p(ts, s, p)
    } else {
        Err(unexpected(s, tok(ts, p)))
    }
}

/// `r` with `pre` put before the items it holds.
pub open spec fn prepend_items<V>(pre: Seq<V>, r: Parsed<Seq<V>>) -> Parsed<Seq<V>> {
    match r {
        Ok((vs, q)) => Ok((pre + vs, q)),
        Err(e) => Err(e),
    }
}

/// Statements up to the closing brace.
pub open spec fn statements_p(ts: Seq<Token>, s: Seq<u8>, p: int) -> Parsed<Seq<StatementView>>
    decreases ts.len() - p,
    via statements_p_decreases
{
    if p < 0 || p > ts.len() || tok(ts, p).kind == TokenKind::CloseBrace {
        Ok((seq![], p))
    } else {
        match statement_p(ts, s, p) {
            Err(x) => Err(x),
            Ok((st, q)) => prepend_items(seq![st], statements_p(ts, s, q)),
        }
    }
}

pub open spec fn block_p(ts: Seq<Token>, s: Seq<u8>, p: int) -> Parsed<BlockView> {
    let start = tok(ts, p).span;
    match expect_p(ts, s, p, TokenKind::OpenBrace) {
        Err(x) => Err(x),
        Ok((_, p1)) => match statements_p(ts, s, p1) {
            Err(x) => Err(x),
            Ok((sts, p2)) => match expect_p(ts, s, p2, TokenKind::CloseBrace) {
                Err(x) => Err(x),
                Ok((end, p3)) => Ok(
                    (BlockView { statements: sts, span: Span(start.0, end.span.1) }, p3),
                ),
            },
        },
    }
}

/// A type name; every one stands for `int` for now.
pub open spec fn ty_p(ts: Seq<Token>, s: Seq<u8>, p: int) -> Parsed<Type> {
    let t = tok(ts, p);
    if t.kind == TokenKind::Ident {
        Ok((Type::Primitive(PrimitveType { kind: Primitives::Int, span: t.span }), next(ts, p)))
    } else {
        Err(unexpected(s, t))
    }
}

pub open spec fn parameter_p(ts: Seq<Token>, s: Seq<u8>, p: int) -> Parsed<ParameterView> {
    let start = tok(ts, p);
    if s.subrange(start.span.0 as int, start.span.1 as int) == word_void() {
        match ident_p(ts, s, next(ts, p)) {
            Err(x) => Err(x),
            Ok((id, q)) => Ok(
                (
                    ParameterView {
                        ty: Type::Primitive(
                            PrimitveType { kind: Primitives::Void, span: start.span },
                        ),
                        ident: id,
                        span: Span(start.span.0, id.span.1),
                    },
                    q,
                ),
            ),
        }
    } else {
        match ty_p(ts, s, p) {
            Err(x) => Err(x),
            Ok((ty, p1)) => match ident_p(ts, s, p1) {
                Err(x) => Err(x),
                Ok((id, q)) => Ok(
                    (ParameterView { ty, ident: id, span: Span(start.span.0, id.span.1) }, q),
                ),
            },
        }
    }
}

/// Where the parameter list goes on after a parameter that ends at `q`: past a comma if one follows.
pub open spec fn after_comma(ts: Seq<Token>, q: int) -> int {
    if tok(ts, q).kind == TokenKind::Comma {
        next(ts, q)
    } else {
        q
    }
}

/// Parameters up to the closing parenthesis.
pub open spec fn parameters_p(ts: Seq<Token>, s: Seq<u8>, p: int) -> Parsed<Seq<ParameterView>>
    decreases ts.len() - p,
    via parameters_p_decreases
{
    if p < 0 || p > ts.len() || tok(ts, p).kind == TokenKind::CloseParen {
        Ok((seq![], p))
    } else {
        match parameter_p(ts, s, p) {
            Err(x) => Err(x),
            Ok((pa, q)) => prepend_items(seq![pa], parameters_p(ts, s, after_comma(ts, q))),
        }
    }
}

pub open spec fn function_p(ts: Seq<Token>, s: Seq<u8>, p: int) -> Parsed<FunctionView> {
    let start = tok(ts, p).span;
    match ty_p(ts, s, p) {
        Err(x) => Err(x),
        Ok((ty, p1)) => match ident_p(ts, s, p1) {
            Err(x) => Err(x),
            Ok((name, p2)) => match expect_p(ts, s, p2, TokenKind::OpenParen) {
                Err(x) => Err(x),
                Ok((_, p3)) => match parameters_p(ts, s, p3) {
                    Err(x) => Err(x),
                    Ok((params, p4)) => match expect_p(ts, s, p4, TokenKind::CloseParen) {
                        Err(x) => Err(x),
                        Ok((_, p5)) => match block_p(ts, s, p5) {
                            Err(x) => Err(x),
                            Ok((block, p6)) => Ok(
                                (
                                    FunctionView {
                                        ty,
                                        name,
                                        params,
                                        block,
                                        span: Span(start.0, block.span.1),
                                    },
                                    p6,
                                ),
                            ),
                        },
                    },
                },
            },
        },
    }
}

pub open spec fn declaration_p(ts: Seq<Token>, s: Seq<u8>, p: int) -> Parsed<DeclarationView> {
    if tok(ts, p).kind == TokenKind::Ident {
        match function_p(ts, s, p) {
            Err(x) => Err(x),
            Ok((f, q)) => Ok((DeclarationView::Function(f), q)),
        }
    } else {
        Err(unexpected(s, tok(ts, p)))
    }
}

/// Declarations up to the end of the tokens.
pub open spec fn declarations_p(ts: Seq<Token>, s: Seq<u8>, p: int) -> Parsed<
    Seq<DeclarationView>,
>
    decreases ts.len() - p,
    via declarations_p_decreases
{
    if p < 0 || p > ts.len() || tok(ts, p).kind == TokenKind::Eof {
        Ok((seq![], p))
    } else {
        match declaration_p(ts, s, p) {
            Err(x) => Err(x),
            Ok((d, q)) => prepend_items(seq![d], declarations_p(ts, s, q)),
        }
    }
}

/// The program that the tokens `ts` of source `s` spell from position `p` on.
pub open spec fn program_p(ts: Seq<Token>, s: Seq<u8>, p: int) -> Result<ProgramView, ErrorView> {
    match declarations_p(ts, s, p) {
        Ok((ds, _)) => Ok(ProgramView { declarations: ds }),
        Err(e) => Err(e),
    }
}

/// The program that source bytes `s` hold, or the first error met in lexing or parsing.
pub open spec fn parse_source(s: Seq<u8>) -> Result<ProgramView, ErrorView> {
    match lex_from(s, 0) {
        Ok(ts) => program_p(ts, s, 0),
        Err(e) => Err(e@),
    }
}

// ---- progress: each production that succeeds consumes a token ----
/// A parse that succeeded ended at or after `p`, strictly after it when `strict`, and within the tokens.
pub open spec fn advances<V>(ts: Seq<Token>, p: int, r: Parsed<V>, strict: bool) -> bool {
    r matches Ok((_, q)) ==> (if strict {
        p < q
    } else {
        p <= q
    }) && q <= ts.len()
}

proof fn lemma_simple_advance(ts: Seq<Token>, s: Seq<u8>, p: int)
    requires
        0 <= p <= ts.len(),
    ensures
        forall|k: TokenKind| k != TokenKind::Eof ==> advances(ts, p, #[trigger] expect_p(ts, s, p, k), true),
        advances(ts, p, ident_p(ts, s, p), true),
        advances(ts, p, ty_p(ts, s, p), true),
        advances(ts, p, return_value_p(ts, s, p), false),
        advances(ts, p, statement_p(ts, s, p), true),
        advances(ts, p, parameter_p(ts, s, p), true),
{
    let p1 = next(ts, p);
    if tok(ts, p).kind == TokenKind::Return {
        let p2r = return_value_p(ts, s, p1);
        if let Ok((_, p2)) = p2r {
            assert(p1 <= p2 <= ts.len());
        }
    }
    if p >= ts.len() {
        assert(s.subrange(0, 0) =~= seq![]);
        assert(s.subrange(0, 0) != word_void());
    }
}

#[via_fn]
proof fn statements_p_decreases(ts: Seq<Token>, s: Seq<u8>, p: int) {
    if 0 <= p <= ts.len() {
        lemma_simple_advance(ts, s, p);
    }
}

#[via_fn]
proof fn parameters_p_decreases(ts: Seq<Token>, s: Seq<u8>, p: int) {
    if 0 <= p <= ts.len() {
        lemma_simple_advance(ts, s, p);
        if let Ok((_, q)) = parameter_p(ts, s, p) {
            lemma_simple_advance(ts, s, q);
        }
    }
}

proof fn lemma_list_advance(ts: Seq<Token>, s: Seq<u8>, p: int)
    requires
        0 <= p <= ts.len(),
    ensures
        advances(ts, p, statements_p(ts, s, p), false),
        advances(ts, p, parameters_p(ts, s, p), false),
    decreases ts.len() - p,
{
    lemma_simple_advance(ts, s, p);
    if tok(ts, p).kind != TokenKind::CloseBrace {
        if let Ok((_, q)) = statement_p(ts, s, p) {
            lemma_list_advance(ts, s, q);
        }
    }
    if tok(ts, p).kind != TokenKind::CloseParen {
        if let Ok((_, q)) = parameter_p(ts, s, p) {
            lemma_simple_advance(ts, s, q);
            lemma_list_advance(ts, s, after_comma(ts, q));
        }
    }
}

proof fn lemma_function_advance(ts: Seq<Token>, s: Seq<u8>, p: int)
    requires
        0 <= p <= ts.len(),
    ensures
        advances(ts, p, block_p(ts, s, p), true),
        advances(ts, p, function_p(ts, s, p), true),
        advances(ts, p, declaration_p(ts, s, p), true),
{
    lemma_simple_advance(ts, s, p);
    if let Ok((_, p1)) = expect_p(ts, s, p, TokenKind::OpenBrace) {
        lemma_list_advance(ts, s, p1);
        if let Ok((_, p2)) = statements_p(ts, s, p1) {
            lemma_simple_advance(ts, s, p2);
        }
    }
    if let Ok((_, p1)) = ty_p(ts, s, p) {
        lemma_simple_advance(ts, s, p1);
        if let Ok((_, p2)) = ident_p(ts, s, p1) {
            lemma_simple_advance(ts, s, p2);
            if let Ok((_, p3)) = expect_p(ts, s, p2, TokenKind::OpenParen) {
                lemma_list_advance(ts, s, p3);
                if let Ok((_, p4)) = parameters_p(ts, s, p3) {
                    lemma_simple_advance(ts, s, p4);
                    if let Ok((_, p5)) = expect_p(ts, s, p4, TokenKind::CloseParen) {
                        lemma_simple_advance(ts, s, p5);
                        if let Ok((_, p6)) = expect_p(ts, s, p5, TokenKind::OpenBrace) {
                            lemma_list_advance(ts, s, p6);
                            if let Ok((_, p7)) = statements_p(ts, s, p6) {
                                lemma_simple_advance(ts, s, p7);
                            }
                        }
                    }
                }
            }
        }
    }
}

#[via_fn]
proof fn declarations_p_decreases(ts: Seq<Token>, s: Seq<u8>, p: int) {
    if 0 <= p <= ts.len() {
        lemma_function_advance(ts, s, p);
    }
}

/// Relies on `String::from_utf8`: ASCII bytes are valid UTF-8, and each decodes to the
/// character of the same code.
#[verifier::external_body]
fn ascii_string(b: &[u8]) -> (r: String)
    requires
        forall|i: int| 0 <= i < b@.len() ==> b@[i] < 128,
    ensures
        r@ == ascii_chars(b@),
{
    String::from_utf8(b.to_vec()).unwrap_or_default()
}

proof fn lemma_digits_prefix(w: Seq<u8>, k: int)
    requires
        0 <= k <= w.len(),
        forall|i: int| 0 <= i < w.len() ==> is_digit(w[i]),
    ensures
        digits_value(w.subrange(0, k)) <= digits_value(w),
    decreases w.len(),
{
    if k < w.len() {
        let v = w.drop_last();
        lemma_digits_prefix(v, k);
        assert(v.subrange(0, k) =~= w.subrange(0, k));
    } else {
        assert(w.subrange(0, k) =~= w);
    }
}

proof fn lemma_prepend_empty<V>(r: Parsed<Seq<V>>)
    ensures
        prepend_items(seq![], r) == r,
{
    if let Ok((vs, q)) = r {
        assert(seq![] + vs =~= vs);
    }
}

/// What an executable parse returned agrees with the parse `spec`, ending at `pos`.
pub open spec fn agrees<T: View>(r: Res<T>, spec: Parsed<T::V>, pos: int) -> bool {
    match r {
        Ok(v) => spec == Ok::<(T::V, int), ErrorView>((v@, pos)),
        Err(e) => spec == Err::<(T::V, int), ErrorView>(e@),
    }
}

/// What an executable parse of a list returned agrees with the parse `spec`, ending at `pos`.
pub open spec fn agrees_list<T: View>(r: Res<Vec<T>>, spec: Parsed<Seq<T::V>>, pos: int) -> bool {
    match r {
        Ok(v) => spec == Ok::<(Seq<T::V>, int), ErrorView>((v@.map_values(|x: T| x@), pos)),
        Err(e) => spec == Err::<(Seq<T::V>, int), ErrorView>(e@),
    }
}

/// A cursor over the tokens of a source.
pub struct Parser<'p> {
    pub source: &'p [u8],
    pub tokens: Vec<Token>,
    pub pos: usize,
}

impl<'p> Parser<'p> {
    pub open spec fn wf(&self) -> bool {
        &&& self.pos <= self.tokens@.len()
        &&& lexemes_agree(self.source@, self.tokens@)
    }

    pub open spec fn kept(&self, before: &Parser<'p>) -> bool {
        &&& self.wf()
        &&& self.source == before.source
        &&& self.tokens@ == before.tokens@
    }

    /// Tokenizes `source`; fails with the lexical error if a byte starts no token.
    pub fn new(source: &'p str) -> (r: Res<Parser<'p>>)
        ensures
            r matches Ok(p) ==> p.wf() && p.pos == 0 && p.source@ == source.spec_bytes()
                && lex_from(source.spec_bytes(), 0) == Ok::<Seq<Token>, RscError>(p.tokens@),
            r matches Err(e) ==> lex_from(source.spec_bytes(), 0) == Err::<Seq<Token>, RscError>(e),
    {
        let lexer = Lexer::new(source);
        let bytes = lexer.source;
        let _n = bytes.len();
        proof {
            lemma_token_lexemes(bytes@);
        }
        match lexer.tokenize() {
            Ok(tokens) => Ok(Parser { source: bytes, tokens, pos: 0 }),
            Err(e) => Err(e),
        }
    }

    proof fn lemma_tok(&self, p: int)
        requires
            self.wf(),
        ensures
            tok(self.tokens@, p).span.0 <= tok(self.tokens@, p).span.1 <= self.source@.len(),
            forall|i: int|
                tok(self.tokens@, p).span.0 <= i < tok(self.tokens@, p).span.1 ==> self.source@[i]
                    < 128,
            tok(self.tokens@, p).kind == TokenKind::LiteralInt ==> forall|i: int|
                tok(self.tokens@, p).span.0 <= i < tok(self.tokens@, p).span.1 ==> is_digit(
                    self.source@[i],
                ),
    {
        let t = tok(self.tokens@, p);
        if 0 <= p < self.tokens@.len() {
            assert(t == self.tokens@[p]);
            let w = self.source@.subrange(t.span.0 as int, t.span.1 as int);
            lemma_classified(w);
            assert forall|i: int| t.span.0 <= i < t.span.1 implies self.source@[i] < 128 by {
                assert(self.source@[i] == w[i - t.span.0]);
            }
            if t.kind == TokenKind::LiteralInt {
                assert forall|i: int| t.span.0 <= i < t.span.1 implies is_digit(self.source@[i]) by {
                    assert(self.source@[i] == w[i - t.span.0]);
                }
            }
        }
    }

    fn bump(&mut self) -> (r: Token)
        requires
            old(self).wf(),
        ensures
            final(self).kept(old(self)),
            r == tok(old(self).tokens@, old(self).pos as int),
            final(self).pos == next(old(self).tokens@, old(self).pos as int),
    {
        let tok = if self.pos < self.tokens.len() {
            self.tokens[self.pos]
        } else {
            Token::default()
        };
        if self.pos < self.tokens.len() {
            self.pos = self.pos + 1;
        }
        tok
    }

    fn peek(&self) -> (r: Token)
        ensures
            r == tok(self.tokens@, self.pos as int),
    {
        if self.pos < self.tokens.len() {
            self.tokens[self.pos]
        } else {
            Token::default()
        }
    }

    /// The source text of a token.
    fn slice(&self, token: &Token) -> (r: String)
        requires
            token.span.0 <= token.span.1 <= self.source@.len(),
            forall|i: int| token.span.0 <= i < token.span.1 ==> self.source@[i] < 128,
        ensures
            r@ == text(self.source@, token.span),
    {
        ascii_string(&self.source[token.span.0..token.span.1])
    }

    /// Whether a token's bytes are exactly `word`.
    fn lexeme_is(&self, token: &Token, word: &[u8]) -> (r: bool)
        requires
            token.span.0 <= token.span.1 <= self.source@.len(),
        ensures
            r == (self.source@.subrange(token.span.0 as int, token.span.1 as int) == word@),
    {
        let ghost w = self.source@.subrange(token.span.0 as int, token.span.1 as int);
        if token.span.1 - token.span.0 != word.len() {
            proof {
                assert(w.len() != word@.len());
            }
            return false;
        }
        let mut i: usize = 0;
        while i < word.len()
            invariant
                token.span.0 <= token.span.1 <= self.source@.len(),
                token.span.1 - token.span.0 == word@.len(),
                w == self.source@.subrange(token.span.0 as int, token.span.1 as int),
                0 <= i <= word@.len(),
                forall|j: int| 0 <= j < i ==> w[j] == word@[j],
            decreases word@.len() - i,
        {
            if self.source[token.span.0 + i] != word[i] {
                proof {
                    assert(w[i as int] != word@[i as int]);
                }
                return false;
            }
            i = i + 1;
        }
        proof {
            assert(w =~= word@);
        }
        true
    }

    /// The value of a run of decimal digits, if it fits an `i32`.
    fn int_value(&self, token: &Token) -> (r: Option<i32>)
        requires
            token.span.0 <= token.span.1 <= self.source@.len(),
            forall|i: int| token.span.0 <= i < token.span.1 ==> is_digit(self.source@[i]),
        ensures
            ({
                let v = digits_value(self.source@.subrange(token.span.0 as int, token.span.1 as int));
                if v <= i32::MAX {
                    r == Some(v as i32)
                } else {
                    r is None
                }
            }),
    {
        let ghost s = self.source@;
        let a = token.span.0;
        let b = token.span.1;
        let ghost w = s.subrange(a as int, b as int);
        let mut acc: u64 = 0;
        let mut i: usize = a;
        proof {
            assert(w.subrange(0, 0) =~= seq![]);
        }
        while i < b
            invariant
                a <= i <= b <= s.len(),
                a == token.span.0,
                b == token.span.1,
                s == self.source@,
                w == s.subrange(a as int, b as int),
                forall|j: int| a <= j < b ==> is_digit(s[j]),
                acc == digits_value(w.subrange(0, i - a)),
                acc <= i32::MAX,
            decreases b - i,
        {
            let d = (self.source[i] - 48) as u64;
            let next_acc = acc * 10 + d;
            proof {
                assert(w.subrange(0, i + 1 - a).drop_last() =~= w.subrange(0, i - a));
                assert(w.subrange(0, i + 1 - a).last() == s[i as int]);
                assert(digits_value(w.subrange(0, i + 1 - a)) == acc * 10 + d);
            }
            if next_acc > 2147483647 {
                proof {
                    assert forall|j: int| 0 <= j < w.len() implies is_digit(w[j]) by {
                        assert(w[j] == s[a + j]);
                    }
                    lemma_digits_prefix(w, i + 1 - a);
                }
                return None;
            }
            acc = next_acc;
            i = i + 1;
        }
        proof {
            assert(w.subrange(0, b - a) =~= w);
        }
        Some(acc as i32)
    }

    fn expect(&mut self, expected: TokenKind) -> (r: Res<Token>)
        requires
            old(self).wf(),
        ensures
            final(self).kept(old(self)),
            agrees(r, expect_p(old(self).tokens@, old(self).source@, old(self).pos as int, expected), final(self).pos as int),
            final(self).pos == next(old(self).tokens@, old(self).pos as int),
    {
        proof {
            self.lemma_tok(self.pos as int);
        }
        let next = self.bump();
        if next.kind == expected {
            Ok(next)
        } else {
            Err(RscError::UnexpectedToken(Box::new(self.slice(&next)), next))
        }
    }

    fn literal(&mut self, bit32: bool) -> (r: Res<PrimaryExpression>)
        requires
            old(self).wf(),
        ensures
            final(self).kept(old(self)),
            agrees(r, literal_p(old(self).tokens@, old(self).source@, old(self).pos as int, bit32), final(self).pos as int),
            final(self).pos == next(old(self).tokens@, old(self).pos as int),
    {
        proof {
            self.lemma_tok(self.pos as int);
        }
        let token = self.bump();
        if token.kind == TokenKind::LiteralInt {
            if !bit32 {
                return Err(RscError::Unsupported(token.span));
            }
            match self.int_value(&token) {
                Some(v) => Ok(PrimaryExpression::Literal(Literal::new(LiteralKind::Int(v), token.span))),
                None => Err(RscError::ParseNum(token)),
            }
        } else if token.kind == TokenKind::LiteralFloat {
            let digits = self.slice(&token);
            let kind = if bit32 {
                LiteralKind::Float(digits)
            } else {
                LiteralKind::Double(digits)
            };
            Ok(PrimaryExpression::Literal(Literal::new(kind, token.span)))
        } else if token.kind == TokenKind::LiteralBool && self.lexeme_is(
            &token,
            [102u8, 97, 108, 115, 101].as_slice(),
        ) {
            Ok(PrimaryExpression::Literal(Literal::new(LiteralKind::Bool(false), token.span)))
        } else {
            Err(RscError::UnexpectedToken(Box::new(self.slice(&token)), token))
        }
    }

    fn ident(&mut self) -> (r: Res<Ident>)
        requires
            old(self).wf(),
        ensures
            final(self).kept(old(self)),
            agrees(r, ident_p(old(self).tokens@, old(self).source@, old(self).pos as int), final(self).pos as int),
            final(self).pos == next(old(self).tokens@, old(self).pos as int),
    {
        proof {
            self.lemma_tok(self.pos as int);
        }
        let token = self.bump();
        let text = self.slice(&token);
        if token.kind == TokenKind::Ident {
            Ok(Ident { ident: text, span: token.span })
        } else {
            Err(RscError::UnexpectedToken(Box::new(text), token))
        }
    }

    fn primary(&mut self, bit32: bool) -> (r: Res<Expression>)
        requires
            old(self).wf(),
        ensures
            final(self).kept(old(self)),
            agrees(r, primary_p(old(self).tokens@, old(self).source@, old(self).pos as int, bit32), final(self).pos as int),
    {
        proof {
            self.lemma_tok(self.pos as int);
        }
        let token = self.peek();
        if token.kind == TokenKind::LiteralInt || token.kind == TokenKind::LiteralFloat
            || token.kind == TokenKind::LiteralBool {
            match self.literal(bit32) {
                Ok(p) => Ok(Expression::Primary(p)),
                Err(e) => Err(e),
            }
        } else {
            Err(RscError::UnexpectedToken(Box::new(self.slice(&token)), token))
        }
    }

    fn expression(&mut self) -> (r: Res<Expression>)
        requires
            old(self).wf(),
        ensures
            final(self).kept(old(self)),
            agrees(r, primary_p(old(self).tokens@, old(self).source@, old(self).pos as int, true), final(self).pos as int),
    {
        self.primary(true)
    }

    fn return_statement(&mut self) -> (r: Res<Statement>)
        requires
            old(self).wf(),
        ensures
            final(self).kept(old(self)),
            agrees(r, return_p(old(self).tokens@, old(self).source@, old(self).pos as int), final(self).pos as int),
    {
        self.expect(TokenKind::Return)?;
        let expr = if self.peek().kind != TokenKind::SemiColon {
            Some(self.expression()?)
        } else {
            None
        };
        self.expect(TokenKind::SemiColon)?;
        Ok(Statement::Return(expr))
    }

    fn statement(&mut self) -> (r: Res<Statement>)
        requires
            old(self).wf(),
        ensures
            final(self).kept(old(self)),
            agrees(r, statement_p(old(self).tokens@, old(self).source@, old(self).pos as int), final(self).pos as int),
    {
        proof {
            self.lemma_tok(self.pos as int);
        }
        let token = self.peek();
        if token.kind == TokenKind::Return {
            self.return_statement()
        } else {
            Err(RscError::UnexpectedToken(Box::new(self.slice(&token)), token))
        }
    }

    /// Statements up to the closing brace, which is left unconsumed.
    fn statements(&mut self) -> (r: Res<Vec<Statement>>)
        requires
            old(self).wf(),
        ensures
            final(self).kept(old(self)),
            agrees_list(r, statements_p(old(self).tokens@, old(self).source@, old(self).pos as int), final(self).pos as int),
    {
        let ghost ts = self.tokens@;
        let ghost s = self.source@;
        let ghost p0 = self.pos as int;
        let mut statements: Vec<Statement> = Vec::new();
        proof {
            lemma_prepend_empty(statements_p(ts, s, p0));
            assert(statements@.map_values(|x: Statement| x@) =~= seq![]);
        }
        while self.peek().kind != TokenKind::CloseBrace
            invariant
                self.kept(old(self)),
                ts == self.tokens@,
                s == self.source@,
                p0 == old(self).pos,
                statements_p(ts, s, p0) == prepend_items(
                    statements@.map_values(|x: Statement| x@),
                    statements_p(ts, s, self.pos as int),
                ),
            decreases ts.len() - self.pos,
        {
            let ghost p = self.pos as int;
            proof {
                lemma_simple_advance(ts, s, p);
            }
            let st = match self.statement() {
                Ok(st) => st,
                Err(e) => {
                    proof {
                        assert(statements_p(ts, s, p) == Err::<(Seq<StatementView>, int), ErrorView>(e@));
                    }
                    return Err(e);
                },
            };
            proof {
                let pre = statements@.map_values(|x: Statement| x@);
                let post = statements@.push(st).map_values(|x: Statement| x@);
                assert(post =~= pre + seq![st@]);
                match statements_p(ts, s, self.pos as int) {
                    Ok((vs, q)) => {
                        assert(pre + (seq![st@] + vs) =~= post + vs);
                    },
                    Err(_) => {},
                }
            }
            statements.push(st);
        }
        proof {
            assert(statements@.map_values(|x: Statement| x@) + seq![] =~= statements@.map_values(
                |x: Statement| x@,
            ));
        }
        Ok(statements)
    }

    fn block(&mut self) -> (r: Res<Block>)
        requires
            old(self).wf(),
        ensures
            final(self).kept(old(self)),
            agrees(r, block_p(old(self).tokens@, old(self).source@, old(self).pos as int), final(self).pos as int),
    {
        let start_span = self.peek().span;
        self.expect(TokenKind::OpenBrace)?;
        let statements = self.statements()?;
        let end = self.expect(TokenKind::CloseBrace)?.span;
        let span = start_span.join(&end);
        Ok(Block { statements, span })
    }

    /// A type name; every one stands for `int` for now.
    fn ty_(&mut self) -> (r: Res<Type>)
        requires
            old(self).wf(),
        ensures
            final(self).kept(old(self)),
            agrees(r, ty_p(old(self).tokens@, old(self).source@, old(self).pos as int), final(self).pos as int),
            final(self).pos == next(old(self).tokens@, old(self).pos as int),
    {
        proof {
            self.lemma_tok(self.pos as int);
        }
        let token = self.bump();
        if token.kind == TokenKind::Ident {
            Ok(Type::Primitive(PrimitveType::new(Primitives::Int, token.span)))
        } else {
            Err(RscError::UnexpectedToken(Box::new(self.slice(&token)), token))
        }
    }

    /// One parameter: `void` and a name, or a type and a name.
    fn parameters(&mut self) -> (r: Res<Parameter>)
        requires
            old(self).wf(),
        ensures
            final(self).kept(old(self)),
            agrees(r, parameter_p(old(self).tokens@, old(self).source@, old(self).pos as int), final(self).pos as int),
    {
        proof {
            self.lemma_tok(self.pos as int);
        }
        let start = self.peek();
        let void_word: [u8; 4] = [118, 111, 105, 100];
        proof {
            assert(void_word@ =~= word_void());
        }
        if self.lexeme_is(&start, void_word.as_slice()) {
            self.bump();
            let ident = self.ident()?;
            let span = start.span.join(&ident.span);
            Ok(
                Parameter {
                    ty: Type::Primitive(PrimitveType::new(Primitives::Void, start.span)),
                    ident,
                    span,
                },
            )
        } else {
            let ty = self.ty_()?;
            let ident = self.ident()?;
            let span = start.span.join(&ident.span);
            Ok(Parameter { ty, ident, span })
        }
    }

    /// Parameters up to the closing parenthesis, which is left unconsumed; a comma after
    /// each one is optional.
    fn parameter_list(&mut self) -> (r: Res<Vec<Parameter>>)
        requires
            old(self).wf(),
        ensures
            final(self).kept(old(self)),
            agrees_list(r, parameters_p(old(self).tokens@, old(self).source@, old(self).pos as int), final(self).pos as int),
    {
        let ghost ts = self.tokens@;
        let ghost s = self.source@;
        let ghost p0 = self.pos as int;
        let mut params: Vec<Parameter> = Vec::new();
        proof {
            lemma_prepend_empty(parameters_p(ts, s, p0));
            assert(params@.map_values(|x: Parameter| x@) =~= seq![]);
        }
        while self.peek().kind != TokenKind::CloseParen
            invariant
                self.kept(old(self)),
                ts == self.tokens@,
                s == self.source@,
                p0 == old(self).pos,
                parameters_p(ts, s, p0) == prepend_items(
                    params@.map_values(|x: Parameter| x@),
                    parameters_p(ts, s, self.pos as int),
                ),
            decreases ts.len() - self.pos,
        {
            let ghost p = self.pos as int;
            proof {
                lemma_simple_advance(ts, s, p);
            }
            let param = match self.parameters() {
                Ok(param) => param,
                Err(e) => {
                    proof {
                        assert(parameters_p(ts, s, p) == Err::<(Seq<ParameterView>, int), ErrorView>(e@));
                    }
                    return Err(e);
                },
            };
            let ghost q = self.pos as int;
            proof {
                lemma_simple_advance(ts, s, q);
            }
            if self.peek().kind == TokenKind::Comma {
                self.bump();
            }
            proof {
                assert(self.pos as int == after_comma(ts, q));
                let pre = params@.map_values(|x: Parameter| x@);
                let post = params@.push(param).map_values(|x: Parameter| x@);
                assert(post =~= pre + seq![param@]);
                match parameters_p(ts, s, self.pos as int) {
                    Ok((vs, z)) => {
                        assert(pre + (seq![param@] + vs) =~= post + vs);
                    },
                    Err(_) => {},
                }
            }
            params.push(param);
        }
        proof {
            assert(params@.map_values(|x: Parameter| x@) + seq![] =~= params@.map_values(
                |x: Parameter| x@,
            ));
        }
        Ok(params)
    }

    fn function(&mut self) -> (r: Res<Function>)
        requires
            old(self).wf(),
        ensures
            final(self).kept(old(self)),
            agrees(r, function_p(old(self).tokens@, old(self).source@, old(self).pos as int), final(self).pos as int),
    {
        let start = self.peek().span;
        let ty = self.ty_()?;
        let name = self.ident()?;
        self.expect(TokenKind::OpenParen)?;
        let params = self.parameter_list()?;
        self.expect(TokenKind::CloseParen)?;
        let block = self.block()?;
        let span = start.join(&block.span);
        Ok(Function { ty, name, params, block, span })
    }

    fn declerations(&mut self) -> (r: Res<Declaration>)
        requires
            old(self).wf(),
        ensures
            final(self).kept(old(self)),
            agrees(r, declaration_p(old(self).tokens@, old(self).source@, old(self).pos as int), final(self).pos as int),
    {
        proof {
            self.lemma_tok(self.pos as int);
        }
        let token = self.peek();
        if token.kind == TokenKind::Ident {
            Ok(Declaration::Function(self.function()?))
        } else {
            Err(RscError::UnexpectedToken(Box::new(self.slice(&token)), token))
        }
    }

    /// Every declaration up to the end of the tokens, in order; stops at the first error.
    #[verifier::rlimit(40)]
    pub fn program(&mut self) -> (r: Res<Program>)
        requires
            old(self).wf(),
        ensures
            final(self).kept(old(self)),
            match r {
                Ok(p) => program_p(old(self).tokens@, old(self).source@, old(self).pos as int)
                    == Ok::<ProgramView, ErrorView>(p@),
                Err(e) => program_p(old(self).tokens@, old(self).source@, old(self).pos as int)
                    == Err::<ProgramView, ErrorView>(e@),
            },
    {
        let ghost ts = self.tokens@;
        let ghost s = self.source@;
        let ghost p0 = self.pos as int;
        let mut decl: Vec<Declaration> = Vec::new();
        proof {
            lemma_prepend_empty(declarations_p(ts, s, p0));
            assert(decl@.map_values(|x: Declaration| x@) =~= seq![]);
        }
        while self.peek().kind != TokenKind::Eof
            invariant
                self.kept(old(self)),
                ts == self.tokens@,
                s == self.source@,
                p0 == old(self).pos,
                declarations_p(ts, s, p0) == prepend_items(
                    decl@.map_values(|x: Declaration| x@),
                    declarations_p(ts, s, self.pos as int),
                ),
            decreases ts.len() - self.pos,
        {
            let ghost p = self.pos as int;
            proof {
                lemma_function_advance(ts, s, p);
            }
            let d = match self.declerations() {
                Ok(d) => d,
                Err(e) => {
                    proof {
                        assert(declarations_p(ts, s, p) == Err::<(Seq<DeclarationView>, int), ErrorView>(e@));
                    }
                    return Err(e);
                },
            };
            proof {
                let pre = decl@.map_values(|x: Declaration| x@);
                let post = decl@.push(d).map_values(|x: Declaration| x@);
                assert(post =~= pre + seq![d@]);
                match declarations_p(ts, s, self.pos as int) {
                    Ok((vs, z)) => {
                        assert(pre + (seq![d@] + vs) =~= post + vs);
                    },
                    Err(_) => {},
                }
            }
            decl.push(d);
        }
        proof {
            assert(decl@.map_values(|x: Declaration| x@) + seq![] =~= decl@.map_values(
                |x: Declaration| x@,
            ));
        }
        Ok(Program { declarations: decl })
    }
}

/// Tokenizes and parses `source`: the program it holds, or the first error met.
pub fn parse(source: &str) -> (r: Res<Program>)
    ensures
        match r {
            Ok(p) => parse_source(source.spec_bytes()) == Ok::<ProgramView, ErrorView>(p@),
            Err(e) => parse_source(source.spec_bytes()) == Err::<ProgramView, ErrorView>(e@),
        },
{
    let mut parser = Parser::new(source)?;
    parser.program()
}

} // verus!
