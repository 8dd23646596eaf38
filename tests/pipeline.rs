use rsc::ast::{
    Ast, Block, Declaration, Expression, Function, Ident, Literal, LiteralKind, PrimaryExpression,
    Primitives, PrimitveType, Program, Statement, Type,
};
use rsc::codegen::CodeGen;
use rsc::error::RscError;
use rsc::parser::{parse as parse_text, Parser};
use rsc::tokens::{Span, Token, TokenKind};

fn parse(src: &str) -> Result<Program, RscError> {
    Parser::new(src)?.program()
}

fn compile(src: &str) -> Result<String, RscError> {
    let program = parse(src)?;
    CodeGen.generate(&Ast { program })
}

#[test]
fn minimal_program_round_trip() {
    let out = compile("int f(void x){return 0;}").unwrap();
    assert_eq!(out, "\r\t.globl _f\n\n_f:\n\tmov\tw0,  #0\n\tret\n");
}

#[test]
fn void_parameter_is_void_typed() {
    let program = parse("int f(void x){return 0;}").unwrap();
    let Declaration::Function(f) = &program.declarations[0];
    assert_eq!(f.params.len(), 1);
    let p = &f.params[0];
    assert_eq!(p.ident.ident, "x");
    match p.ty {
        Type::Primitive(t) => assert_eq!(t.kind, Primitives::Void),
    }
    assert_eq!(p.span, Span(6, 12));
    assert_eq!(f.span, Span(0, 24));
    assert_eq!(f.block.span, Span(13, 24));
}

#[test]
fn bare_return_has_no_move() {
    let out = compile("int f(){return;}").unwrap();
    assert_eq!(out, "\r\t.globl _f\n\n_f:\n\tret\n");
    assert!(!out.contains("mov"));
}

#[test]
fn truncated_function_fails_at_sentinel() {
    match parse("int f(") {
        Err(RscError::UnexpectedToken(text, token)) => {
            assert_eq!(*text, "");
            assert_eq!(token, Token::default());
            assert_eq!(token.kind, TokenKind::Eof);
        }
        other => panic!("unexpected {:?}", other),
    }
}

#[test]
fn two_parameters_in_order() {
    let program = parse("int f(int a, int b){}").unwrap();
    let Declaration::Function(f) = &program.declarations[0];
    assert_eq!(f.params.len(), 2);
    assert_eq!(f.params[0].ident.ident, "a");
    assert_eq!(f.params[1].ident.ident, "b");
    for p in &f.params {
        match p.ty {
            Type::Primitive(t) => assert_eq!(t.kind, Primitives::Int),
        }
    }
    assert_eq!(f.params[1].span, Span(13, 18));
}

#[test]
fn trailing_comma_is_tolerated() {
    let program = parse("int f(int a,){return;}").unwrap();
    let Declaration::Function(f) = &program.declarations[0];
    assert_eq!(f.params.len(), 1);
}

#[test]
fn equality_ignores_spans() {
    let a = Literal::new(LiteralKind::Int(3), Span(0, 1));
    let b = Literal::new(LiteralKind::Int(3), Span(10, 11));
    let c = Literal::new(LiteralKind::Int(4), Span(0, 1));
    let d = Literal::new(LiteralKind::Bool(false), Span(0, 1));
    assert!(a == b);
    assert!(a != c);
    assert!(a != d);
    assert!(Ident::new("x", Span(0, 1)) == Ident::new("x", Span(5, 6)));
    assert!(Ident::new("x", Span(0, 1)) != Ident::new("y", Span(0, 1)));
    assert!(PrimitveType::new(Primitives::Int, Span(0, 3)) == PrimitveType::new(Primitives::Int, Span(4, 7)));
}

#[test]
fn declaration_order_is_kept() {
    let out = compile("int f(){return 1;} int g(){return 2;} int h(){return 3;}").unwrap();
    let f = out.find("_f:").unwrap();
    let g = out.find("_g:").unwrap();
    let h = out.find("_h:").unwrap();
    assert!(f < g && g < h);
    assert_eq!(
        out,
        "\r\t.globl _f\n\n_f:\n\tmov\tw0,  #1\n\tret\n\n\r\t.globl _g\n\n_g:\n\tmov\tw0,  #2\n\tret\n\n\r\t.globl _h\n\n_h:\n\tmov\tw0,  #3\n\tret\n"
    );
}

#[test]
fn empty_program_generates_nothing() {
    assert_eq!(compile("").unwrap(), "");
}

#[test]
fn integer_too_large_is_numeric_error() {
    assert!(matches!(compile("int f(){return 2147483648;}"), Err(RscError::ParseNum(_))));
    assert!(compile("int f(){return 2147483647;}").unwrap().contains("#2147483647"));
}

#[test]
fn float_literal_is_unsupported_in_codegen() {
    let program = parse("int f(){return 1.5;}").unwrap();
    let Declaration::Function(f) = &program.declarations[0];
    match &f.block.statements[0] {
        Statement::Return(Some(Expression::Primary(PrimaryExpression::Literal(l)))) => {
            assert!(matches!(&l.kind, LiteralKind::Float(t) if t == "1.5"));
        }
        other => panic!("unexpected {:?}", other),
    }
    assert!(matches!(
        CodeGen.generate(&Ast { program }),
        Err(RscError::Unsupported(Span(15, 18)))
    ));
}

#[test]
fn false_literal_parses_and_bool_word_does_not() {
    let program = parse("int f(){return false;}").unwrap();
    let Declaration::Function(f) = &program.declarations[0];
    match &f.block.statements[0] {
        Statement::Return(Some(Expression::Primary(PrimaryExpression::Literal(l)))) => {
            assert!(matches!(l.kind, LiteralKind::Bool(false)));
        }
        other => panic!("unexpected {:?}", other),
    }
    match parse("int f(){return bool;}") {
        Err(RscError::UnexpectedToken(text, token)) => {
            assert_eq!(*text, "bool");
            assert_eq!(token.kind, TokenKind::LiteralBool);
        }
        other => panic!("unexpected {:?}", other),
    }
}

#[test]
fn identifier_expression_is_unexpected() {
    match parse("int f(){return x;}") {
        Err(RscError::UnexpectedToken(text, token)) => {
            assert_eq!(*text, "x");
            assert_eq!(token.span, Span(15, 16));
        }
        other => panic!("unexpected {:?}", other),
    }
}

#[test]
fn missing_close_brace_is_unexpected_eof() {
    match parse("int f(){return 1;") {
        Err(RscError::UnexpectedToken(_, token)) => assert_eq!(token.kind, TokenKind::Eof),
        other => panic!("unexpected {:?}", other),
    }
}

#[test]
fn lexical_error_stops_parsing() {
    assert!(matches!(Parser::new("int f(){return 1+2;}"), Err(RscError::LexicalError(b'+', _))));
}

#[test]
fn negative_immediate_and_identifier_codegen() {
    let lit = |k| Statement::Return(Some(Expression::Primary(PrimaryExpression::Literal(Literal::new(k, Span(0, 1))))));
    let func = |stmts| {
        Declaration::Function(Function {
            ty: Type::Primitive(PrimitveType::new(Primitives::Int, Span(0, 3))),
            name: Ident::new("neg", Span(4, 7)),
            params: vec![],
            block: Block { statements: stmts, span: Span(8, 9) },
            span: Span(0, 9),
        })
    };
    let ast = Ast { program: Program { declarations: vec![func(vec![lit(LiteralKind::Int(-5)), Statement::Return(None)])] } };
    assert_eq!(CodeGen.generate(&ast).unwrap(), "\r\t.globl _neg\n\n_neg:\n\tmov\tw0,  #-5\n\tret\n\tret\n");
    let id = Statement::Return(Some(Expression::Primary(PrimaryExpression::Ident(Ident::new("y", Span(2, 3))))));
    let ast = Ast { program: Program { declarations: vec![func(vec![id])] } };
    assert!(matches!(CodeGen.generate(&ast), Err(RscError::Unsupported(Span(2, 3)))));
}

#[test]
fn literal_type_and_primitive_names() {
    let t = Type::from(Literal::new(LiteralKind::Char('c'), Span(1, 4)));
    match t {
        Type::Primitive(p) => {
            assert_eq!(p.kind, Primitives::Char);
            assert_eq!(p.span, Span(1, 4));
        }
    }
    assert_eq!(Primitives::Void.name(), "void");
    assert_eq!(Primitives::Double.name(), "double");
}

#[test]
fn parse_entry_matches_parser_steps() {
    let src = "int f(int a){return 5;}";
    let direct = parse_text(src).unwrap();
    let stepped = Parser::new(src).unwrap().program().unwrap();
    assert_eq!(direct.declarations.len(), stepped.declarations.len());
    let Declaration::Function(f) = &direct.declarations[0];
    assert_eq!(f.name.ident, "f");
    assert!(matches!(parse_text("int f(){return 1#;}"), Err(RscError::LexicalError(b'#', Span(16, 17)))));
    assert!(matches!(parse_text("int f){}"), Err(RscError::UnexpectedToken(_, Token { kind: TokenKind::CloseParen, .. }))));
}

#[test]
fn token_spans_fall_on_character_boundaries() {
    let src = "int f(){return 0;}";
    for t in rsc::lexer::Lexer::new(src).tokenize().unwrap() {
        assert!(src.is_char_boundary(t.span.0) && src.is_char_boundary(t.span.1));
        assert!(t.span.0 < t.span.1);
    }
}
