use vstd::prelude::*;

use vstd::string::StringSliceAdditionalSpecFns;
use vstd::utf8::{
    is_char_boundary, is_char_boundary_iff_not_is_continuation_byte, length_of_first_scalar,
    pop_first_scalar, valid_utf8,
};

use crate::error::RscError;
use crate::tokens::{Span, Token, TokenKind};

verus! {

/// What the cursor reads past the end of the source.
pub const EOF_CHAR: u8 = 0;

pub open spec fn is_ws(b: u8) -> bool {
    b == 32 || b == 10 || b == 9
}

/// Letters and underscore: the bytes of an identifier or keyword.
pub open spec fn is_word_byte(b: u8) -> bool {
    (65 <= b && b <= 90) || (97 <= b && b <= 122) || b == 95
}

pub open spec fn is_digit(b: u8) -> bool {
    48 <= b && b <= 57
}

pub open spec fn punct_kind(b: u8) -> Option<TokenKind> {
    if b == 40 {
        Some(TokenKind::OpenParen)
    } else if b == 41 {
        Some(TokenKind::CloseParen)
    } else if b == 123 {
        Some(TokenKind::OpenBrace)
    } else if b == 125 {
        Some(TokenKind::CloseBrace)
    } else if b == 59 {
        Some(TokenKind::SemiColon)
    } else if b == 44 {
        Some(TokenKind::Comma)
    } else {
        None
    }
}

/// The first byte at or after `p` that is not whitespace.
pub open spec fn ws_end(s: Seq<u8>, p: int) -> int {
    run_end(s, p, |x: u8| is_ws(x))
}

/// The end of the run of bytes satisfying `pred` that starts at `p`.
pub open spec fn run_end(s: Seq<u8>, p: int, pred: spec_fn(u8) -> bool) -> int
    decreases s.len() - p,
{
    if 0 <= p < s.len() && pred(s[p]) {
        run_end(s, p + 1, pred)
    } else {
        p
    }
}

pub open spec fn lower(b: u8) -> u8 {
    if 65 <= b && b <= 90 {
        (b + 32) as u8
    } else {
        b
    }
}

/// `w` spells `word`, letter case ignored when `fold` is set.
pub open spec fn spells(w: Seq<u8>, word: Seq<u8>, fold: bool) -> bool {
    w.len() == word.len() && forall|i: int|
        0 <= i < w.len() ==> (if fold {
            lower(w[i])
        } else {
            w[i]
        }) == word[i]
}

pub open spec fn word_false() -> Seq<u8> {
    seq![102u8, 97, 108, 115, 101]
}

pub open spec fn word_bool() -> Seq<u8> {
    seq![98u8, 111, 111, 108]
}

pub open spec fn word_return() -> Seq<u8> {
    seq![114u8, 101, 116, 117, 114, 110]
}

/// The kind of an identifier-or-keyword lexeme.
pub open spec fn word_kind(w: Seq<u8>) -> TokenKind {
    if spells(w, word_false(), false) || spells(w, word_bool(), false) {
        TokenKind::LiteralBool
    } else if spells(w, word_return(), true) {
        TokenKind::Return
    } else {
        TokenKind::Ident
    }
}

/// Bytes in the UTF-8 character that byte `b` leads.
pub open spec fn char_width(b: u8) -> int {
    if b >= 0xF0 {
        4
    } else if b >= 0xE0 {
        3
    } else if b >= 0xC0 {
        2
    } else {
        1
    }
}

/// Where the token that starts at `p` ends.
pub open spec fn scan_end(s: Seq<u8>, p: int) -> int {
    let b = s[p];
    if is_word_byte(b) {
        run_end(s, p + 1, |x: u8| is_word_byte(x))
    } else if is_digit(b) {
        let d = run_end(s, p + 1, |x: u8| is_digit(x));
        if d < s.len() && s[d] == 46 {
            run_end(s, d + 1, |x: u8| is_digit(x))
        } else {
            d
        }
    } else if punct_kind(b) is Some {
        p + 1
    } else if p + char_width(b) <= s.len() {
        p + char_width(b)
    } else {
        s.len() as int
    }
}

/// The kind of the token that starts at `p`.
pub open spec fn scan_kind(s: Seq<u8>, p: int) -> TokenKind {
    let b = s[p];
    if is_word_byte(b) {
        word_kind(s.subrange(p, scan_end(s, p)))
    } else if is_digit(b) {
        let d = run_end(s, p + 1, |x: u8| is_digit(x));
        if d < s.len() && s[d] == 46 {
            TokenKind::LiteralFloat
        } else {
            TokenKind::LiteralInt
        }
    } else if punct_kind(b) is Some {
        punct_kind(b)->0
    } else {
        TokenKind::Error
    }
}

/// The tokens of `s` from byte `p` on, or the error at the first byte that starts none.
pub open spec fn lex_from(s: Seq<u8>, p: int) -> Result<Seq<Token>, RscError>
    decreases s.len() - p,
    via lex_from_decreases
{
    let q = ws_end(s, p);
    if p < 0 || q >= s.len() {
        Ok(seq![])
    } else {
        let e = scan_end(s, q);
        let k = scan_kind(s, q);
        if k == TokenKind::Error {
            Err(RscError::LexicalError(s[q], Span(q as usize, e as usize)))
        } else {
            match lex_from(s, e) {
                Ok(ts) => Ok(seq![Token { span: Span(q as usize, e as usize), kind: k }] + ts),
                Err(x) => Err(x),
            }
        }
    }
}

pub proof fn lemma_run_end(s: Seq<u8>, p: int, pred: spec_fn(u8) -> bool)
    requires
        0 <= p,
    ensures
        p <= run_end(s, p, pred),
        p <= s.len() ==> run_end(s, p, pred) <= s.len(),
        forall|i: int| p <= i < run_end(s, p, pred) ==> pred(s[i]),
        run_end(s, p, pred) < s.len() ==> !pred(s[run_end(s, p, pred)]),
    decreases s.len() - p,
{
    if 0 <= p < s.len() && pred(s[p]) {
        lemma_run_end(s, p + 1, pred);
    }
}

pub proof fn lemma_scan_end(s: Seq<u8>, p: int)
    requires
        0 <= p < s.len(),
    ensures
        p < scan_end(s, p) <= s.len(),
{
    lemma_run_end(s, p + 1, |x: u8| is_word_byte(x));
    let d = run_end(s, p + 1, |x: u8| is_digit(x));
    lemma_run_end(s, p + 1, |x: u8| is_digit(x));
    if d < s.len() {
        lemma_run_end(s, d + 1, |x: u8| is_digit(x));
    }
}

#[via_fn]
proof fn lex_from_decreases(s: Seq<u8>, p: int) {
    if p >= 0 {
        lemma_run_end(s, p, |x: u8| is_ws(x));
        let q = ws_end(s, p);
        if q < s.len() {
            lemma_scan_end(s, q);
        }
    }
}

/// The keyword that `word` spells, letter case ignored.
pub fn keyword_kind(word: &[u8]) -> (r: Option<TokenKind>)
    ensures
        r == (if spells(word@, word_return(), true) {
            Some(TokenKind::Return)
        } else {
            None::<TokenKind>
        }),
{
    let kw: [u8; 6] = [114, 101, 116, 117, 114, 110];
    proof {
        assert(kw@ =~= word_return());
    }
    if word.len() != 6 {
        return None;
    }
    let mut i: usize = 0;
    while i < 6
        invariant
            word@.len() == 6,
            kw@ == word_return(),
            0 <= i <= 6,
            forall|j: int| 0 <= j < i ==> lower(word@[j]) == kw@[j],
        decreases 6 - i,
    {
        let b = word[i];
        let c = if 65 <= b && b <= 90 {
            b + 32
        } else {
            b
        };
        if c != kw[i] {
            return None;
        }
        i = i + 1;
    }
    Some(TokenKind::Return)
}

/// Parses a keyword, letter case ignored; any other text is refused.
impl core::str::FromStr for TokenKind {
    type Err = ();

    fn from_str(s: &str) -> Result<TokenKind, ()> {
        match keyword_kind(s.as_bytes()) {
            Some(k) => Ok(k),
            None => Err(()),
        }
    }
}

/// A cursor over the bytes of a source text.
pub struct Lexer<'a> {
    pub source: &'a [u8],
    pub pos: usize,
    pub token_start: usize,
}

impl<'a> Lexer<'a> {
    pub open spec fn wf(&self) -> bool {
        self.token_start <= self.pos <= self.source@.len()
    }

    pub fn new(source: &'a str) -> (r: Lexer<'a>)
        ensures
            r.source@ == source.spec_bytes(),
            r.pos == 0,
            r.token_start == 0,
            r.wf(),
    {
        Lexer { source: source.as_bytes(), pos: 0, token_start: 0 }
    }

    /// Consumes the next byte, or reads `EOF_CHAR` at the end.
    pub fn advance(&mut self) -> (r: u8)
        requires
            old(self).wf(),
        ensures
            final(self).wf(),
            final(self).source == old(self).source,
            final(self).token_start == old(self).token_start,
            old(self).pos < old(self).source@.len() ==> r == old(self).source@[old(self).pos as int]
                && final(self).pos == old(self).pos + 1,
            old(self).pos >= old(self).source@.len() ==> r == EOF_CHAR && final(self).pos
                == old(self).pos,
    {
        if self.pos < self.source.len() {
            let b = self.source[self.pos];
            self.pos = self.pos + 1;
            b
        } else {
            EOF_CHAR
        }
    }

    /// The next byte, not consumed.
    pub fn first(&self) -> (r: u8)
        ensures
            self.pos < self.source@.len() ==> r == self.source@[self.pos as int],
            self.pos >= self.source@.len() ==> r == EOF_CHAR,
    {
        if self.pos < self.source.len() {
            self.source[self.pos]
        } else {
            EOF_CHAR
        }
    }

    /// The byte after the next one, not consumed.
    pub fn second(&self) -> (r: u8)
        ensures
            self.pos + 1 < self.source@.len() ==> r == self.source@[self.pos + 1],
            self.pos + 1 >= self.source@.len() ==> r == EOF_CHAR,
    {
        if self.pos < self.source.len() && self.pos + 1 < self.source.len() {
            self.source[self.pos + 1]
        } else {
            EOF_CHAR
        }
    }

    pub fn pos(&self) -> (r: usize)
        ensures
            r == self.pos,
    {
        self.pos
    }

    /// The bytes of the token read so far.
    pub fn content(&self) -> (r: &[u8])
        requires
            self.wf(),
        ensures
            r@ == self.source@.subrange(self.token_start as int, self.pos as int),
    {
        &self.source[self.token_start..self.pos]
    }

    /// The bytes that a token's span covers.
    pub fn slice(&self, token: &Token) -> (r: &[u8])
        requires
            token.span.0 <= token.span.1 <= self.source@.len(),
        ensures
            r@ == self.source@.subrange(token.span.0 as int, token.span.1 as int),
    {
        &self.source[token.span.0..token.span.1]
    }

    /// A token of `kind` over the bytes read since the last reset.
    pub fn token(&self, kind: TokenKind) -> (r: Token)
        ensures
            r == (Token { span: Span(self.token_start, self.pos), kind }),
    {
        Token::new(kind, self.token_start, self.pos)
    }

    /// Starts the next token at the cursor.
    pub fn reset_ptr(&mut self)
        requires
            old(self).wf(),
        ensures
            final(self).wf(),
            final(self).source == old(self).source,
            final(self).pos == old(self).pos,
            final(self).token_start == old(self).pos,
    {
        self.token_start = self.pos;
    }

    /// Consumes bytes while `cond` holds of them.
    pub fn advance_while<F: Fn(u8) -> bool>(&mut self, cond: F)
        requires
            old(self).wf(),
            forall|b: u8| cond.requires((b,)),
        ensures
            final(self).wf(),
            final(self).source == old(self).source,
            final(self).token_start == old(self).token_start,
            old(self).pos <= final(self).pos,
            forall|i: int|
                old(self).pos <= i < final(self).pos ==> cond.ensures((old(self).source@[i],), true),
            final(self).pos < final(self).source@.len() ==> cond.ensures(
                (final(self).source@[final(self).pos as int],),
                false,
            ),
    {
        let start = self.pos;
        while self.pos < self.source.len() && cond(self.first())
            invariant
                self.wf(),
                self.source == old(self).source,
                self.token_start == old(self).token_start,
                start == old(self).pos <= self.pos,
                forall|b: u8| cond.requires((b,)),
                forall|i: int| start <= i < self.pos ==> cond.ensures((self.source@[i],), true),
            decreases self.source@.len() - self.pos,
        {
            self.advance();
        }
    }

    /// Consumes the run of whitespace (`sel == 0`), word bytes (1) or digits (2) at the cursor.
    fn skip_run(&mut self, sel: u8)
        requires
            old(self).wf(),
            sel <= 2,
        ensures
            final(self).wf(),
            final(self).source == old(self).source,
            final(self).token_start == old(self).token_start,
            final(self).pos == run_end(old(self).source@, old(self).pos as int, run_pred(sel)),
    {
        let ghost s = self.source@;
        let ghost p = self.pos as int;
        if sel == 0 {
            self.advance_while(|x: u8| -> (r: bool) ensures r == is_ws(x) { x == 32 || x == 10 || x == 9 });
        } else if sel == 1 {
            self.advance_while(
                |x: u8| -> (r: bool)
                    ensures r == is_word_byte(x)
                    { (65 <= x && x <= 90) || (97 <= x && x <= 122) || x == 95 },
            );
        } else {
            self.advance_while(|x: u8| -> (r: bool) ensures r == is_digit(x) { 48 <= x && x <= 57 });
        }
        proof {
            lemma_run_end_exact(s, p, self.pos as int, run_pred(sel));
        }
    }

    /// Whether the bytes in `[start, end)` spell `word`.
    fn spells_at(&self, start: usize, end: usize, word: &[u8], fold: bool) -> (r: bool)
        requires
            start <= end <= self.source@.len(),
        ensures
            r == spells(self.source@.subrange(start as int, end as int), word@, fold),
    {
        if end - start != word.len() {
            return false;
        }
        let mut i: usize = 0;
        while i < word.len()
            invariant
                start <= end <= self.source@.len(),
                end - start == word@.len(),
                0 <= i <= word@.len(),
                forall|j: int|
                    0 <= j < i ==> (if fold {
                        lower(self.source@[start + j])
                    } else {
                        self.source@[start + j]
                    }) == word@[j],
            decreases word@.len() - i,
        {
            let b = self.source[start + i];
            let c = if fold && 65 <= b && b <= 90 {
                b + 32
            } else {
                b
            };
            if c != word[i] {
                return false;
            }
            i = i + 1;
        }
        true
    }

    /// Classifies the identifier-or-keyword lexeme in `[start, end)`.
    fn word_kind_at(&self, start: usize, end: usize) -> (r: TokenKind)
        requires
            start <= end <= self.source@.len(),
        ensures
            r == word_kind(self.source@.subrange(start as int, end as int)),
    {
        let w_false: [u8; 5] = [102, 97, 108, 115, 101];
        let w_bool: [u8; 4] = [98, 111, 111, 108];
        let w_return: [u8; 6] = [114, 101, 116, 117, 114, 110];
        proof {
            assert(w_false@ =~= word_false());
            assert(w_bool@ =~= word_bool());
            assert(w_return@ =~= word_return());
        }
        if self.spells_at(start, end, w_false.as_slice(), false) || self.spells_at(
            start,
            end,
            w_bool.as_slice(),
            false,
        ) {
            TokenKind::LiteralBool
        } else if self.spells_at(start, end, w_return.as_slice(), true) {
            TokenKind::Return
        } else {
            TokenKind::Ident
        }
    }

    /// Skips whitespace, then reads one token and says its kind.
    pub fn kind(&mut self) -> (r: TokenKind)
        requires
            old(self).wf(),
        ensures
            final(self).wf(),
            final(self).source == old(self).source,
            ({
                let s = old(self).source@;
                let q = ws_end(s, old(self).pos as int);
                if q >= s.len() {
                    r == TokenKind::Eof && final(self).token_start == q && final(self).pos == q
                } else {
                    &&& r == scan_kind(s, q)
                    &&& final(self).token_start == q
                    &&& final(self).pos == scan_end(s, q)
                }
            }),
    {
        let ghost s = self.source@;
        self.skip_run(0);
        self.reset_ptr();
        let ghost q = self.pos as int;
        proof {
            lemma_run_end(s, old(self).pos as int, |x: u8| is_ws(x));
        }
        if self.pos >= self.source.len() {
            return TokenKind::Eof;
        }
        let b = self.advance();
        if (65 <= b && b <= 90) || (97 <= b && b <= 122) || b == 95 {
            self.skip_run(1);
            self.word_kind_at(self.token_start, self.pos)
        } else if 48 <= b && b <= 57 {
            self.skip_run(2);
            proof {
                lemma_run_end(s, q + 1, |x: u8| is_digit(x));
            }
            if self.pos < self.source.len() && self.source[self.pos] == 46 {
                self.advance();
                self.skip_run(2);
                TokenKind::LiteralFloat
            } else {
                TokenKind::LiteralInt
            }
        } else if b == 40 {
            TokenKind::OpenParen
        } else if b == 41 {
            TokenKind::CloseParen
        } else if b == 123 {
            TokenKind::OpenBrace
        } else if b == 125 {
            TokenKind::CloseBrace
        } else if b == 59 {
            TokenKind::SemiColon
        } else if b == 44 {
            TokenKind::Comma
        } else {
            let rest: usize = if b >= 0xF0 {
                3
            } else if b >= 0xE0 {
                2
            } else if b >= 0xC0 {
                1
            } else {
                0
            };
            if self.source.len() - self.pos >= rest {
                self.pos = self.pos + rest;
            } else {
                self.pos = self.source.len();
            }
            TokenKind::Error
        }
    }

    fn lex(&mut self) -> (r: Token)
        requires
            old(self).wf(),
        ensures
            final(self).wf(),
            final(self).source == old(self).source,
            ({
                let s = old(self).source@;
                let q = ws_end(s, old(self).pos as int);
                if q >= s.len() {
                    r.kind == TokenKind::Eof && final(self).pos == q
                } else {
                    r == (Token {
                        span: Span(q as usize, scan_end(s, q) as usize),
                        kind: scan_kind(s, q),
                    }) && final(self).pos == scan_end(s, q)
                }
            }),
    {
        let kind = self.kind();
        self.token(kind)
    }

    /// Every token from the cursor to the end of the source, or the first lexical error.
    pub fn tokenize(self) -> (r: Result<Vec<Token>, RscError>)
        requires
            self.wf(),
        ensures
            tokenized(self.source@, self.pos as int, r),
    {
        let ghost s = self.source@;
        let ghost p0 = self.pos as int;
        let mut lexer = self;
        let mut tokens: Vec<Token> = Vec::new();
        loop
            invariant
                lexer.wf(),
                lexer.source@ == s,
                s == self.source@,
                p0 == self.pos,
                lex_from(s, p0) == prepend(tokens@, lex_from(s, lexer.pos as int)),
            decreases s.len() - lexer.pos,
        {
            let ghost p = lexer.pos as int;
            let token = lexer.lex();
            proof {
                lemma_run_end(s, p, |x: u8| is_ws(x));
                let q = ws_end(s, p);
                if q < s.len() {
                    lemma_scan_end(s, q);
                }
            }
            if token.kind == TokenKind::Eof {
                proof {
                    assert(lex_from(s, p) == Ok::<Seq<Token>, RscError>(seq![]));
                    assert(tokens@ + seq![] =~= tokens@);
                }
                return Ok(tokens);
            }
            if token.kind == TokenKind::Error {
                proof {
                    let q = ws_end(s, p);
                    assert(lex_from(s, p) == Err::<Seq<Token>, RscError>(
                        RscError::LexicalError(s[q], token.span),
                    ));
                }
                let b = lexer.source[token.span.0];
                return Err(RscError::LexicalError(b, token.span));
            }
            proof {
                let ghost old_tokens = tokens@;
                match lex_from(s, lexer.pos as int) {
                    Ok(ts) => {
                        assert(old_tokens.push(token) + ts =~= old_tokens + (seq![token] + ts));
                    },
                    Err(_) => {},
                }
            }
            tokens.push(token);
        }
    }
}

/// `r` with `prefix` put before its tokens.
pub open spec fn prepend(prefix: Seq<Token>, r: Result<Seq<Token>, RscError>) -> Result<
    Seq<Token>,
    RscError,
> {
    match r {
        Ok(ts) => Ok(prefix + ts),
        Err(e) => Err(e),
    }
}

/// The byte classes that `skip_run` reads: whitespace, word bytes, digits.
pub open spec fn run_pred(sel: u8) -> spec_fn(u8) -> bool {
    if sel == 0 {
        |x: u8| is_ws(x)
    } else if sel == 1 {
        |x: u8| is_word_byte(x)
    } else {
        |x: u8| is_digit(x)
    }
}

pub proof fn lemma_run_end_exact(s: Seq<u8>, p: int, q: int, pred: spec_fn(u8) -> bool)
    requires
        0 <= p <= q <= s.len(),
        forall|i: int| p <= i < q ==> pred(s[i]),
        q < s.len() ==> !pred(s[q]),
    ensures
        run_end(s, p, pred) == q,
    decreases q - p,
{
    if p < q {
        lemma_run_end_exact(s, p + 1, q, pred);
    }
}

/// `r` is what tokenizing `s` from byte `p` gives.
pub open spec fn tokenized(s: Seq<u8>, p: int, r: Result<Vec<Token>, RscError>) -> bool {
    match r {
        Ok(ts) => lex_from(s, p) == Ok::<Seq<Token>, RscError>(ts@),
        Err(e) => lex_from(s, p) == Err::<Seq<Token>, RscError>(e),
    }
}

/// Tokenizing a source twice gives the same tokens, or the same error.
pub proof fn lemma_tokenize_deterministic(
    s: Seq<u8>,
    p: int,
    r1: Result<Vec<Token>, RscError>,
    r2: Result<Vec<Token>, RscError>,
)
    requires
        tokenized(s, p, r1),
        tokenized(s, p, r2),
    ensures
        r1 is Ok <==> r2 is Ok,
        r1 matches Ok(a) ==> r2 matches Ok(b) && a@ == b@,
        r1 matches Err(e) ==> r2 == Err::<Vec<Token>, RscError>(e),
{
}

/// `w` is a digit run, a dot, and a digit run that may be empty.
pub open spec fn is_float_text(w: Seq<u8>) -> bool {
    exists|d: int|
        0 < d < w.len() && w[d] == 46 && (forall|i: int| 0 <= i < d ==> is_digit(w[i])) && (
        forall|i: int| d < i < w.len() ==> is_digit(w[i]))
}

/// The kind that a lexeme has on its own.
pub open spec fn classify(w: Seq<u8>) -> TokenKind {
    if w.len() > 0 && forall|i: int| 0 <= i < w.len() ==> is_word_byte(w[i]) {
        word_kind(w)
    } else if w.len() > 0 && forall|i: int| 0 <= i < w.len() ==> is_digit(w[i]) {
        TokenKind::LiteralInt
    } else if is_float_text(w) {
        TokenKind::LiteralFloat
    } else if w.len() == 1 && punct_kind(w[0]) is Some {
        punct_kind(w[0])->0
    } else {
        TokenKind::Error
    }
}

/// The span of each token lies in the source, and its kind is what its lexeme classifies as.
pub open spec fn lexemes_agree(s: Seq<u8>, ts: Seq<Token>) -> bool {
    forall|i: int|
        0 <= i < ts.len() ==> {
            let t = #[trigger] ts[i];
            &&& t.span.0 < t.span.1 <= s.len()
            &&& t.kind != TokenKind::Error
            &&& t.kind != TokenKind::Eof
            &&& classify(s.subrange(t.span.0 as int, t.span.1 as int)) == t.kind
        }
}

proof fn lemma_scan_classify(s: Seq<u8>, q: int)
    requires
        0 <= q < s.len(),
        scan_kind(s, q) != TokenKind::Error,
    ensures
        classify(s.subrange(q, scan_end(s, q))) == scan_kind(s, q),
        scan_kind(s, q) != TokenKind::Eof,
{
    let b = s[q];
    let e = scan_end(s, q);
    lemma_scan_end(s, q);
    let w = s.subrange(q, e);
    if is_word_byte(b) {
        lemma_run_end(s, q + 1, |x: u8| is_word_byte(x));
        assert forall|i: int| 0 <= i < w.len() implies is_word_byte(w[i]) by {
            if i > 0 {
                assert(w[i] == s[q + i]);
            }
        }
    } else if is_digit(b) {
        let d = run_end(s, q + 1, |x: u8| is_digit(x));
        lemma_run_end(s, q + 1, |x: u8| is_digit(x));
        assert(!is_word_byte(w[0]));
        if d < s.len() && s[d] == 46 {
            lemma_run_end(s, d + 1, |x: u8| is_digit(x));
            assert(w[d - q] == 46);
            assert(!is_digit(w[d - q]));
            assert forall|i: int| 0 <= i < d - q implies is_digit(w[i]) by {
                if i > 0 {
                    assert(w[i] == s[q + i]);
                }
            }
            assert forall|i: int| d - q < i < w.len() implies is_digit(w[i]) by {
                assert(w[i] == s[q + i]);
            }
            assert(is_float_text(w));
        } else {
            assert forall|i: int| 0 <= i < w.len() implies is_digit(w[i]) by {
                if i > 0 {
                    assert(w[i] == s[q + i]);
                }
            }
        }
    } else {
        assert(w.len() == 1);
        assert(!is_word_byte(w[0]) && !is_digit(w[0]));
    }
}

proof fn lemma_lex_from_lexemes(s: Seq<u8>, p: int)
    requires
        0 <= p,
        s.len() <= usize::MAX,
    ensures
        lex_from(s, p) matches Ok(ts) ==> lexemes_agree(s, ts),
    decreases s.len() - p,
{
    lemma_run_end(s, p, |x: u8| is_ws(x));
    let q = ws_end(s, p);
    if q < s.len() {
        lemma_scan_end(s, q);
        let e = scan_end(s, q);
        if scan_kind(s, q) != TokenKind::Error {
            lemma_scan_classify(s, q);
            lemma_lex_from_lexemes(s, e);
            if let Ok(ts) = lex_from(s, e) {
                let all = seq![Token { span: Span(q as usize, e as usize), kind: scan_kind(s, q) }]
                    + ts;
                assert forall|i: int| 0 <= i < all.len() implies {
                    let t = #[trigger] all[i];
                    &&& t.span.0 < t.span.1 <= s.len()
                    &&& t.kind != TokenKind::Error
                    &&& t.kind != TokenKind::Eof
                    &&& classify(s.subrange(t.span.0 as int, t.span.1 as int)) == t.kind
                } by {
                    if i > 0 {
                        assert(all[i] == ts[i - 1]);
                    }
                }
            }
        }
    }
}

/// Each token of a source, sliced out of it by its span, gives a lexeme that is classified
/// as the token's kind.
pub proof fn lemma_token_lexemes(s: Seq<u8>)
    requires
        s.len() <= usize::MAX,
    ensures
        lex_from(s, 0) matches Ok(ts) ==> lexemes_agree(s, ts),
{
    lemma_lex_from_lexemes(s, 0);
}

/// A lexeme with a kind is ASCII, and an integer lexeme is all digits.
pub proof fn lemma_classified(w: Seq<u8>)
    requires
        classify(w) != TokenKind::Error,
    ensures
        forall|i: int| 0 <= i < w.len() ==> w[i] < 128,
        classify(w) == TokenKind::LiteralInt ==> forall|i: int| 0 <= i < w.len() ==> is_digit(w[i]),
{
    if is_float_text(w) {
        let d = choose|d: int|
            0 < d < w.len() && w[d] == 46 && (forall|i: int| 0 <= i < d ==> is_digit(w[i])) && (
            forall|i: int| d < i < w.len() ==> is_digit(w[i]));
        assert forall|i: int| 0 <= i < w.len() implies w[i] < 128 by {
            if i < d {
                assert(is_digit(w[i]));
            } else if i > d {
                assert(is_digit(w[i]));
            }
        }
    }
}

proof fn lemma_ascii_ends_char(b: Seq<u8>, i: int)
    requires
        valid_utf8(b),
        0 <= i < b.len(),
        b[i] < 128,
    ensures
        is_char_boundary(b, i),
        is_char_boundary(b, i + 1),
    decreases b.len(),
{
    is_char_boundary_iff_not_is_continuation_byte(b, i);
    let n = length_of_first_scalar(b);
    if i == 0 {
        reveal_with_fuel(is_char_boundary, 2);
    } else {
        let rest = pop_first_scalar(b);
        assert(i >= n);
        assert(rest[i - n] == b[i]);
        lemma_ascii_ends_char(rest, i - n);
    }
}

/// Each token's span starts and ends on a character boundary of the UTF-8 source, so
/// slicing the source by it gives a whole, non-empty piece of the text.
pub proof fn lemma_token_boundaries(s: Seq<u8>)
    requires
        valid_utf8(s),
        s.len() <= usize::MAX,
    ensures
        lex_from(s, 0) matches Ok(ts) ==> forall|i: int|
            0 <= i < ts.len() ==> {
                let t = #[trigger] ts[i];
                &&& t.span.0 < t.span.1 <= s.len()
                &&& is_char_boundary(s, t.span.0 as int)
                &&& is_char_boundary(s, t.span.1 as int)
            },
{
    lemma_token_lexemes(s);
    if let Ok(ts) = lex_from(s, 0) {
        assert forall|i: int| 0 <= i < ts.len() implies {
            let t = #[trigger] ts[i];
            &&& t.span.0 < t.span.1 <= s.len()
            &&& is_char_boundary(s, t.span.0 as int)
            &&& is_char_boundary(s, t.span.1 as int)
        } by {
            let t = ts[i];
            let w = s.subrange(t.span.0 as int, t.span.1 as int);
            lemma_classified(w);
            assert(s[t.span.0 as int] == w[0]);
            lemma_ascii_ends_char(s, t.span.0 as int);
            let last = t.span.1 - 1;
            assert(s[last] == w[last - t.span.0]);
            lemma_ascii_ends_char(s, last);
        }
    }
}

} // verus!
