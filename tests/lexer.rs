use rsc::error::RscError;
use rsc::lexer::{keyword_kind, Lexer, EOF_CHAR};
use rsc::tokens::{Span, Token, TokenKind};

fn kinds(src: &str) -> Vec<TokenKind> {
    Lexer::new(src).tokenize().unwrap().iter().map(|t| t.kind).collect()
}

#[test]
fn tokenizes_minimal_function() {
    assert_eq!(
        kinds("int f(void x){return 0;}"),
        vec![
            TokenKind::Ident,
            TokenKind::Ident,
            TokenKind::OpenParen,
            TokenKind::Ident,
            TokenKind::Ident,
            TokenKind::CloseParen,
            TokenKind::OpenBrace,
            TokenKind::Return,
            TokenKind::LiteralInt,
            TokenKind::SemiColon,
            TokenKind::CloseBrace,
        ]
    );
}

#[test]
fn tokenizing_twice_gives_the_same_tokens() {
    let src = "int main(int a, int b) {\n\treturn 42;\n}";
    let a = Lexer::new(src).tokenize().unwrap();
    let b = Lexer::new(src).tokenize().unwrap();
    assert_eq!(a, b);
}

#[test]
fn spans_slice_out_the_lexemes() {
    let src = "  int  f ( a , b ) { return 12 ; return 3.25 ; }";
    let tokens = Lexer::new(src).tokenize().unwrap();
    let lexemes: Vec<&str> = tokens.iter().map(|t| &src[t.span.0..t.span.1]).collect();
    assert_eq!(
        lexemes,
        vec!["int", "f", "(", "a", ",", "b", ")", "{", "return", "12", ";", "return", "3.25", ";", "}"]
    );
    assert_eq!(tokens[12].kind, TokenKind::LiteralFloat);
    assert_eq!(tokens[4].kind, TokenKind::Comma);
}

#[test]
fn empty_and_blank_sources_have_no_tokens() {
    assert!(kinds("").is_empty());
    assert!(kinds(" \n\t ").is_empty());
}

#[test]
fn keyword_is_case_insensitive() {
    assert_eq!(kinds("RETURN Return return"), vec![TokenKind::Return; 3]);
    assert_eq!(kinds("returns"), vec![TokenKind::Ident]);
}

#[test]
fn false_and_bool_are_bool_literals() {
    assert_eq!(
        kinds("false bool False true"),
        vec![TokenKind::LiteralBool, TokenKind::LiteralBool, TokenKind::Ident, TokenKind::Ident]
    );
}

#[test]
fn digits_are_not_part_of_identifiers() {
    assert_eq!(kinds("a1"), vec![TokenKind::Ident, TokenKind::LiteralInt]);
}

#[test]
fn float_with_empty_fraction() {
    let tokens = Lexer::new("7.").tokenize().unwrap();
    assert_eq!(tokens, vec![Token::new(TokenKind::LiteralFloat, 0, 2)]);
}

#[test]
fn bad_character_is_a_lexical_error() {
    match Lexer::new("int f@").tokenize() {
        Err(RscError::LexicalError(b, span)) => {
            assert_eq!(b, b'@');
            assert_eq!(span, Span(5, 6));
        }
        other => panic!("unexpected {:?}", other),
    }
}

#[test]
fn lexical_error_spans_a_whole_character() {
    match Lexer::new("a é").tokenize() {
        Err(RscError::LexicalError(b, span)) => {
            assert_eq!(b, 0xC3);
            assert_eq!(span, Span(2, 4));
        }
        other => panic!("unexpected {:?}", other),
    }
}

#[test]
fn carriage_return_is_not_whitespace() {
    assert!(matches!(Lexer::new("a\r\n").tokenize(), Err(RscError::LexicalError(b'\r', Span(1, 2)))));
}

#[test]
fn cursor_reads_bytes_and_end_marker() {
    let mut lexer = Lexer::new("ab");
    assert_eq!(lexer.first(), b'a');
    assert_eq!(lexer.second(), b'b');
    assert_eq!(lexer.advance(), b'a');
    assert_eq!(lexer.pos(), 1);
    assert_eq!(lexer.second(), EOF_CHAR);
    assert_eq!(lexer.content(), b"a");
    lexer.reset_ptr();
    assert_eq!(lexer.advance(), b'b');
    assert_eq!(lexer.advance(), EOF_CHAR);
    assert_eq!(lexer.pos(), 2);
    assert_eq!(lexer.token(TokenKind::Ident), Token::new(TokenKind::Ident, 1, 2));
    assert_eq!(lexer.slice(&Token::new(TokenKind::Ident, 0, 2)), b"ab");
}

#[test]
fn advance_while_stops_at_first_failing_byte() {
    let mut lexer = Lexer::new("aaab");
    lexer.advance_while(|b| b == b'a');
    assert_eq!(lexer.pos(), 3);
}

#[test]
fn kind_skips_whitespace_and_marks_token() {
    let mut lexer = Lexer::new("  abc;");
    assert_eq!(lexer.kind(), TokenKind::Ident);
    assert_eq!(lexer.token(TokenKind::Ident), Token::new(TokenKind::Ident, 2, 5));
    assert_eq!(lexer.kind(), TokenKind::SemiColon);
    assert_eq!(lexer.kind(), TokenKind::Eof);
}

#[test]
fn sentinel_token_and_span_join() {
    let t = Token::default();
    assert_eq!(t.kind, TokenKind::Eof);
    assert_eq!(t.span, Span(0, 0));
    assert_eq!(Span(3, 5).join(&Span(8, 12)), Span(3, 12));
}

#[test]
fn keyword_lookup_ignores_case() {
    assert_eq!(keyword_kind(b"ReTuRn"), Some(TokenKind::Return));
    assert_eq!(keyword_kind(b"retur"), None);
    assert_eq!("RETURN".parse::<TokenKind>(), Ok(TokenKind::Return));
    assert_eq!("int".parse::<TokenKind>(), Err(()));
}
