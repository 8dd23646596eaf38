use vstd::prelude::*;

use vstd::std_specs::cmp::PartialEqSpec;

use crate::tokens::Span;

verus! {

/// A name in the source, with its span.
#[derive(Debug, Clone)]
pub struct Ident {
    pub ident: String,
    pub span: Span,
}

impl Ident {
    pub fn new(ident: &str, span: Span) -> (r: Ident)
        ensures
            r.ident@ == ident@,
            r.span == span,
    {
        Ident { ident: ident.to_owned(), span }
    }
}

/// Names are equal when their text is; the span plays no part.
impl PartialEq for Ident {
    fn eq(&self, other: &Ident) -> (r: bool) {
        self.ident == other.ident
    }
}

impl vstd::std_specs::cmp::PartialEqSpecImpl for Ident {
    open spec fn obeys_eq_spec() -> bool {
        true
    }

    open spec fn eq_spec(&self, other: &Ident) -> bool {
        self.ident@ == other.ident@
    }
}

/// A literal value with the span of its text.
#[derive(Debug, Clone)]
pub struct Literal {
    pub kind: LiteralKind,
    pub span: Span,
}

impl Literal {
    pub fn new(kind: LiteralKind, span: Span) -> (r: Literal)
        ensures
            r.kind == kind,
            r.span == span,
    {
        Literal { kind, span }
    }
}

/// Literals are equal when their kinds and values are; the span plays no part.
impl PartialEq for Literal {
    fn eq(&self, other: &Literal) -> (r: bool) {
        self.kind.same(&other.kind)
    }
}

impl vstd::std_specs::cmp::PartialEqSpecImpl for Literal {
    open spec fn obeys_eq_spec() -> bool {
        true
    }

    open spec fn eq_spec(&self, other: &Literal) -> bool {
        self.kind@ == other.kind@
    }
}

/// The value of a literal. A floating-point literal keeps its decimal text, digits and dot.
#[derive(Debug, Clone)]
pub enum LiteralKind {
    Int(i32),
    Float(String),
    Double(String),
    Char(char),
    Bool(bool),
}

pub enum LiteralKindView {
    Int(i32),
    Float(Seq<char>),
    Double(Seq<char>),
    Char(char),
    Bool(bool),
}

impl View for LiteralKind {
    type V = LiteralKindView;

    open spec fn view(&self) -> LiteralKindView {
        match self {
            LiteralKind::Int(i) => LiteralKindView::Int(*i),
            LiteralKind::Float(t) => LiteralKindView::Float(t@),
            LiteralKind::Double(t) => LiteralKindView::Double(t@),
            LiteralKind::Char(c) => LiteralKindView::Char(*c),
            LiteralKind::Bool(b) => LiteralKindView::Bool(*b),
        }
    }
}

impl LiteralKind {
    /// Whether two literal values are the same kind with the same value.
    pub fn same(&self, other: &LiteralKind) -> (r: bool)
        ensures
            r == (self@ == other@),
    {
        match (self, other) {
            (LiteralKind::Int(a), LiteralKind::Int(b)) => *a == *b,
            (LiteralKind::Float(a), LiteralKind::Float(b)) => *a == *b,
            (LiteralKind::Double(a), LiteralKind::Double(b)) => *a == *b,
            (LiteralKind::Char(a), LiteralKind::Char(b)) => *a == *b,
            (LiteralKind::Bool(a), LiteralKind::Bool(b)) => *a == *b,
            _ => false,
        }
    }
}

#[derive(Debug, Clone)]
pub enum PrimaryExpression {
    Literal(Literal),
    Ident(Ident),
}

#[derive(Debug, Clone)]
pub enum Expression {
    Primary(PrimaryExpression),
}

#[derive(Debug, Clone)]
pub enum Statement {
    /// `return;` when the expression is absent.
    Return(Option<Expression>),
}

/// The statements between braces, with the span of the braces and all between.
#[derive(Debug, Clone)]
pub struct Block {
    pub statements: Vec<Statement>,
    pub span: Span,
}

#[derive(Debug, Clone)]
pub struct Parameter {
    pub ty: Type,
    pub ident: Ident,
    pub span: Span,
}

#[derive(Debug, Clone)]
pub struct Function {
    pub ty: Type,
    pub name: Ident,
    pub params: Vec<Parameter>,
    pub block: Block,
    pub span: Span,
}

#[derive(Debug, Clone)]
pub enum Declaration {
    Function(Function),
}

/// The declarations of a source, in the order they stand in it.
#[derive(Debug, Clone)]
pub struct Program {
    pub declarations: Vec<Declaration>,
}

#[derive(Debug, Clone)]
pub struct Ast {
    pub program: Program,
}

#[derive(Debug, Clone, Copy)]
pub enum Type {
    Primitive(PrimitveType),
}

impl View for Type {
    type V = Type;

    open spec fn view(&self) -> Type {
        *self
    }
}

impl PartialEq for Type {
    fn eq(&self, other: &Type) -> (r: bool) {
        match (self, other) {
            (Type::Primitive(a), Type::Primitive(b)) => a.kind == b.kind,
        }
    }
}

impl vstd::std_specs::cmp::PartialEqSpecImpl for Type {
    open spec fn obeys_eq_spec() -> bool {
        true
    }

    open spec fn eq_spec(&self, other: &Type) -> bool {
        match (self, other) {
            (Type::Primitive(a), Type::Primitive(b)) => a.kind == b.kind,
        }
    }
}

/// A primitive type named in the source, with the span of its name.
#[derive(Debug, Clone, Copy)]
pub struct PrimitveType {
    pub kind: Primitives,
    pub span: Span,
}

impl PrimitveType {
    pub fn new(kind: Primitives, span: Span) -> (r: PrimitveType)
        ensures
            r.kind == kind,
            r.span == span,
    {
        PrimitveType { kind, span }
    }
}

/// Primitive types are equal when their kinds are; the span plays no part.
impl PartialEq for PrimitveType {
    fn eq(&self, other: &PrimitveType) -> (r: bool) {
        self.kind == other.kind
    }
}

impl vstd::std_specs::cmp::PartialEqSpecImpl for PrimitveType {
    open spec fn obeys_eq_spec() -> bool {
        true
    }

    open spec fn eq_spec(&self, other: &PrimitveType) -> bool {
        self.kind == other.kind
    }
}

#[derive(Debug, Clone, Copy, PartialEq, Eq, Structural)]
pub enum Primitives {
    Void,
    Int,
    Float,
    Double,
    Char,
    Bool,
}

impl Primitives {
    /// The keyword that names the type.
    pub fn name(&self) -> (r: &'static str)
        ensures
            r@ == primitive_name(*self),
    {
        proof {
            reveal_strlit("void");
            reveal_strlit("int");
            reveal_strlit("float");
            reveal_strlit("double");
            reveal_strlit("char");
            reveal_strlit("bool");
        }
        match self {
            Primitives::Void => "void",
            Primitives::Int => "int",
            Primitives::Float => "float",
            Primitives::Double => "double",
            Primitives::Char => "char",
            Primitives::Bool => "bool",
        }
    }
}

pub open spec fn primitive_name(p: Primitives) -> Seq<char> {
    match p {
        Primitives::Void => seq!['v', 'o', 'i', 'd'],
        Primitives::Int => seq!['i', 'n', 't'],
        Primitives::Float => seq!['f', 'l', 'o', 'a', 't'],
        Primitives::Double => seq!['d', 'o', 'u', 'b', 'l', 'e'],
        Primitives::Char => seq!['c', 'h', 'a', 'r'],
        Primitives::Bool => seq!['b', 'o', 'o', 'l'],
    }
}

/// The primitive type of a literal's value.
pub open spec fn literal_primitive(k: LiteralKindView) -> Primitives {
    match k {
        LiteralKindView::Int(_) => Primitives::Int,
        LiteralKindView::Float(_) => Primitives::Float,
        LiteralKindView::Double(_) => Primitives::Double,
        LiteralKindView::Char(_) => Primitives::Char,
        LiteralKindView::Bool(_) => Primitives::Bool,
    }
}

/// The type of a literal, spanning the literal.
impl From<Literal> for Type {
    fn from(value: Literal) -> (r: Type) {
        let kind = match value.kind {
            LiteralKind::Int(_) => Primitives::Int,
            LiteralKind::Float(_) => Primitives::Float,
            LiteralKind::Double(_) => Primitives::Double,
            LiteralKind::Char(_) => Primitives::Char,
            LiteralKind::Bool(_) => Primitives::Bool,
        };
        Type::Primitive(PrimitveType { kind, span: value.span })
    }
}

impl vstd::std_specs::convert::FromSpecImpl<Literal> for Type {
    open spec fn obeys_from_spec() -> bool {
        true
    }

    open spec fn from_spec(v: Literal) -> Type {
        Type::Primitive(PrimitveType { kind: literal_primitive(v.kind@), span: v.span })
    }
}

// ---- the tree as values, with text as characters ----
pub struct IdentView {
    pub text: Seq<char>,
    pub span: Span,
}

pub struct LiteralView {
    pub kind: LiteralKindView,
    pub span: Span,
}

pub enum PrimaryView {
    Literal(LiteralView),
    Ident(IdentView),
}

pub enum ExpressionView {
    Primary(PrimaryView),
}

pub enum StatementView {
    Return(Option<ExpressionView>),
}

pub struct BlockView {
    pub statements: Seq<StatementView>,
    pub span: Span,
}

pub struct ParameterView {
    pub ty: Type,
    pub ident: IdentView,
    pub span: Span,
}

pub struct FunctionView {
    pub ty: Type,
    pub name: IdentView,
    pub params: Seq<ParameterView>,
    pub block: BlockView,
    pub span: Span,
}

pub enum DeclarationView {
    Function(FunctionView),
}

pub struct ProgramView {
    pub declarations: Seq<DeclarationView>,
}

impl View for Ident {
    type V = IdentView;

    open spec fn view(&self) -> IdentView {
        IdentView { text: self.ident@, span: self.span }
    }
}

impl View for Literal {
    type V = LiteralView;

    open spec fn view(&self) -> LiteralView {
        LiteralView { kind: self.kind@, span: self.span }
    }
}

impl View for PrimaryExpression {
    type V = PrimaryView;

    open spec fn view(&self) -> PrimaryView {
        match self {
            PrimaryExpression::Literal(l) => PrimaryView::Literal(l@),
            PrimaryExpression::Ident(i) => PrimaryView::Ident(i@),
        }
    }
}

impl View for Expression {
    type V = ExpressionView;

    open spec fn view(&self) -> ExpressionView {
        match self {
            Expression::Primary(p) => ExpressionView::Primary(p@),
        }
    }
}

impl View for Statement {
    type V = StatementView;

    open spec fn view(&self) -> StatementView {
        match self {
            Statement::Return(None) => StatementView::Return(None),
            Statement::Return(Some(e)) => StatementView::Return(Some(e@)),
        }
    }
}

impl View for Block {
    type V = BlockView;

    open spec fn view(&self) -> BlockView {
        BlockView { statements: self.statements@.map_values(|s: Statement| s@), span: self.span }
    }
}

impl View for Parameter {
    type V = ParameterView;

    open spec fn view(&self) -> ParameterView {
        ParameterView { ty: self.ty, ident: self.ident@, span: self.span }
    }
}

impl View for Function {
    type V = FunctionView;

    open spec fn view(&self) -> FunctionView {
        FunctionView {
            ty: self.ty,
            name: self.name@,
            params: self.params@.map_values(|p: Parameter| p@),
            block: self.block@,
            span: self.span,
        }
    }
}

impl View for Declaration {
    type V = DeclarationView;

    open spec fn view(&self) -> DeclarationView {
        match self {
            Declaration::Function(f) => DeclarationView::Function(f@),
        }
    }
}

impl View for Program {
    type V = ProgramView;

    open spec fn view(&self) -> ProgramView {
        ProgramView { declarations: self.declarations@.map_values(|d: Declaration| d@) }
    }
}

/// Literals with the same value are equal whatever their spans; so are names with the same text.
pub proof fn lemma_equality_ignores_spans(a: Literal, b: Literal, x: Ident, y: Ident)
    ensures
        a.eq_spec(&b) <==> a.kind@ == b.kind@,
        x.eq_spec(&y) <==> x.ident@ == y.ident@,
{
}

} // verus!
