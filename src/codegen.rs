use vstd::prelude::*;

use vstd::string::StringExecFns;

use crate::ast::{
    Ast, Block, Declaration, DeclarationView, Expression, ExpressionView, Function, FunctionView,
    LiteralKind, LiteralKindView, PrimaryExpression, PrimaryView, Program, ProgramView, Statement,
    StatementView,
};
use crate::error::{ErrorView, RscError};
use crate::Res;

verus! {

/// The parts joined with `sep` between each two.
pub open spec fn join(parts: Seq<Seq<char>>, sep: Seq<char>) -> Seq<char>
    decreases parts.len(),
{
    if parts.len() == 0 {
        seq![]
    } else if parts.len() == 1 {
        parts[0]
    } else {
        join(parts.drop_last(), sep) + sep + parts.last()
    }
}

pub open spec fn digit_char(d: int) -> char {
    seq!['0', '1', '2', '3', '4', '5', '6', '7', '8', '9'][d]
}

/// The decimal digits of `n`.
pub open spec fn nat_text(n: nat) -> Seq<char>
    decreases n,
{
    if n < 10 {
        seq![digit_char(n as int)]
    } else {
        nat_text(n / 10) + seq![digit_char((n % 10) as int)]
    }
}

/// `i` in decimal, with a minus sign when negative.
pub open spec fn int_text(i: int) -> Seq<char> {
    if i < 0 {
        seq!['-'] + nat_text((-i) as nat)
    } else {
        nat_text(i as nat)
    }
}

/// Relies on `ToString` for `i32`, which writes the value in decimal, with `-` before a
/// negative one.
#[verifier::external_body]
fn int_string(i: i32) -> (r: String)
    ensures
        r@ == int_text(i as int),
{
    i.to_string()
}

/// The operand for a primary expression: an immediate for an integer literal.
pub open spec fn primary_text(p: PrimaryView) -> Result<Seq<char>, ErrorView> {
    match p {
        PrimaryView::Literal(l) => match l.kind {
            LiteralKindView::Int(i) => Ok(seq!['#'] + int_text(i as int)),
            _ => Err(ErrorView::Unsupported(l.span)),
        },
        PrimaryView::Ident(id) => Err(ErrorView::Unsupported(id.span)),
    }
}

pub open spec fn expression_text(e: ExpressionView) -> Result<Seq<char>, ErrorView> {
    match e {
        ExpressionView::Primary(p) => primary_text(p),
    }
}

pub open spec fn ret_text() -> Seq<char> {
    seq!['\t', 'r', 'e', 't']
}

pub open spec fn mov_text() -> Seq<char> {
    seq!['\t', 'm', 'o', 'v', '\t', 'w', '0', ',', ' ', ' ']
}

pub open spec fn statement_text(st: StatementView) -> Result<Seq<char>, ErrorView> {
    match st {
        StatementView::Return(None) => Ok(ret_text()),
        StatementView::Return(Some(e)) => match expression_text(e) {
            Ok(body) => Ok(mov_text() + body + seq!['\n'] + ret_text()),
            Err(x) => Err(x),
        },
    }
}

/// The text of each statement, or the error of the first that has none.
pub open spec fn statement_texts(sts: Seq<StatementView>) -> Result<Seq<Seq<char>>, ErrorView>
    decreases sts.len(),
{
    if sts.len() == 0 {
        Ok(seq![])
    } else {
        match statement_texts(sts.drop_last()) {
            Err(x) => Err(x),
            Ok(ts) => match statement_text(sts.last()) {
                Ok(t) => Ok(ts.push(t)),
                Err(x) => Err(x),
            },
        }
    }
}

pub open spec fn block_text(sts: Seq<StatementView>) -> Result<Seq<char>, ErrorView> {
    match statement_texts(sts) {
        Ok(ts) => Ok(join(ts, seq!['\n'])),
        Err(x) => Err(x),
    }
}

/// A function's label and its body: `\r\t.globl _name\n\n_name:\nbody\n`.
pub open spec fn function_text(f: FunctionView) -> Result<Seq<char>, ErrorView> {
    match block_text(f.block.statements) {
        Ok(body) => Ok(
            seq!['\r', '\t', '.', 'g', 'l', 'o', 'b', 'l', ' ', '_'] + f.name.text + seq![
                '\n',
                '\n',
                '_',
            ] + f.name.text + seq![':', '\n'] + body + seq!['\n'],
        ),
        Err(x) => Err(x),
    }
}

pub open spec fn declaration_text(d: DeclarationView) -> Result<Seq<char>, ErrorView> {
    match d {
        DeclarationView::Function(f) => function_text(f),
    }
}

/// The text of each declaration, or the error of the first that has none.
pub open spec fn declaration_texts(ds: Seq<DeclarationView>) -> Result<Seq<Seq<char>>, ErrorView>
    decreases ds.len(),
{
    if ds.len() == 0 {
        Ok(seq![])
    } else {
        match declaration_texts(ds.drop_last()) {
            Err(x) => Err(x),
            Ok(ts) => match declaration_text(ds.last()) {
                Ok(t) => Ok(ts.push(t)),
                Err(x) => Err(x),
            },
        }
    }
}

/// The output for a program: its declarations' texts in order, a newline between each two.
pub open spec fn program_text(p: ProgramView) -> Result<Seq<char>, ErrorView> {
    match declaration_texts(p.declarations) {
        Ok(ts) => Ok(join(ts, seq!['\n'])),
        Err(x) => Err(x),
    }
}

/// The generated text `r` is the `spec` text, or the same error.
pub open spec fn emitted(r: Res<String>, spec: Result<Seq<char>, ErrorView>) -> bool {
    match r {
        Ok(s) => spec == Ok::<Seq<char>, ErrorView>(s@),
        Err(e) => spec == Err::<Seq<char>, ErrorView>(e@),
    }
}

/// A bare `return;` becomes a return instruction alone, with no move before it.
pub proof fn lemma_bare_return()
    ensures
        statement_text(StatementView::Return(None)) == Ok::<Seq<char>, ErrorView>(
            seq!['\t', 'r', 'e', 't'],
        ),
{
}

proof fn lemma_texts_pointwise(ds: Seq<DeclarationView>)
    requires
        declaration_texts(ds) is Ok,
    ensures
        declaration_texts(ds) matches Ok(ts) && ts.len() == ds.len() && forall|i: int|
            0 <= i < ts.len() ==> declaration_text(ds[i]) == Ok::<Seq<char>, ErrorView>(ts[i]),
    decreases ds.len(),
{
    if ds.len() > 0 {
        let front = ds.drop_last();
        lemma_texts_pointwise(front);
        if let Ok(ts) = declaration_texts(ds) {
            assert forall|i: int| 0 <= i < ts.len() implies declaration_text(ds[i]) == Ok::<
                Seq<char>,
                ErrorView,
            >(ts[i]) by {
                if i < ds.len() - 1 {
                    assert(ds[i] == front[i]);
                }
            }
        }
    }
}

/// A program's output is one text per declaration, joined by newlines, in the order in
/// which the declarations stand.
pub proof fn lemma_declaration_order(p: ProgramView)
    requires
        program_text(p) is Ok,
    ensures
        declaration_texts(p.declarations) matches Ok(ts) && ts.len() == p.declarations.len() && (
        forall|i: int|
            0 <= i < ts.len() ==> declaration_text(p.declarations[i]) == Ok::<Seq<char>, ErrorView>(
                ts[i],
            )) && program_text(p) == Ok::<Seq<char>, ErrorView>(join(ts, seq!['\n'])),
{
    lemma_texts_pointwise(p.declarations);
}

/// Emits assembly-like text for a syntax tree; it keeps no state between calls.
pub struct CodeGen;

impl CodeGen {
    pub fn generate(&mut self, ast: &Ast) -> (r: Res<String>)
        ensures
            emitted(r, program_text(ast.program@)),
    {
        self.generate_program(&ast.program)
    }

    fn generate_program(&mut self, program: &Program) -> (r: Res<String>)
        ensures
            emitted(r, program_text(program@)),
    {
        let ghost ds = program@.declarations;
        let mut out = String::new();
        let mut i: usize = 0;
        let ghost parts: Seq<Seq<char>> = seq![];
        proof {
            assert(ds.take(0) =~= seq![]);
        }
        while i < program.declarations.len()
            invariant
                0 <= i <= program.declarations@.len(),
                ds == program@.declarations,
                ds.len() == program.declarations@.len(),
                declaration_texts(ds.take(i as int)) == Ok::<Seq<Seq<char>>, ErrorView>(parts),
                out@ == join(parts, seq!['\n']),
                parts.len() == i,
            decreases program.declarations@.len() - i,
        {
            let ghost prefix = ds.take(i as int);
            proof {
                assert(ds.take(i + 1).drop_last() =~= prefix);
                assert(ds.take(i + 1).last() == program.declarations@[i as int]@);
            }
            let text = match self.generate_declarations(&program.declarations[i]) {
                Ok(t) => t,
                Err(e) => {
                    proof {
                        lemma_texts_error_stays(ds, i as int + 1);
                    }
                    return Err(e);
                },
            };
            if i > 0 {
                proof {
                    reveal_strlit("\n");
                }
                out.append("\n");
            }
            out.append(text.as_str());
            proof {
                let np = parts.push(text@);
                assert(np.drop_last() =~= parts);
                if i == 0 {
                    assert(out@ =~= join(np, seq!['\n']));
                }
                parts = np;
            }
            i = i + 1;
        }
        proof {
            assert(ds.take(i as int) =~= ds);
        }
        Ok(out)
    }

    fn generate_declarations(&mut self, declaration: &Declaration) -> (r: Res<String>)
        ensures
            emitted(r, declaration_text(declaration@)),
    {
        match declaration {
            Declaration::Function(func) => self.generate_function(func),
        }
    }

    fn generate_function(&mut self, function: &Function) -> (r: Res<String>)
        ensures
            emitted(r, function_text(function@)),
    {
        let body = self.generate_block(&function.block)?;
        let name = function.name.ident.as_str();
        proof {
            reveal_strlit("\r\t.globl _");
            reveal_strlit("\n\n_");
            reveal_strlit(":\n");
            reveal_strlit("\n");
        }
        let mut out = String::from_str("\r\t.globl _");
        out.append(name);
        out.append("\n\n_");
        out.append(name);
        out.append(":\n");
        out.append(body.as_str());
        out.append("\n");
        proof {
            let n = function.name.ident@;
            assert(out@ =~= seq!['\r', '\t', '.', 'g', 'l', 'o', 'b', 'l', ' ', '_'] + n + seq![
                '\n',
                '\n',
                '_',
            ] + n + seq![':', '\n'] + body@ + seq!['\n']);
        }
        Ok(out)
    }

    fn generate_block(&mut self, block: &Block) -> (r: Res<String>)
        ensures
            emitted(r, block_text(block@.statements)),
    {
        let ghost sts = block@.statements;
        let mut out = String::new();
        let mut i: usize = 0;
        let ghost parts: Seq<Seq<char>> = seq![];
        proof {
            assert(sts.take(0) =~= seq![]);
        }
        while i < block.statements.len()
            invariant
                0 <= i <= block.statements@.len(),
                sts == block@.statements,
                sts.len() == block.statements@.len(),
                statement_texts(sts.take(i as int)) == Ok::<Seq<Seq<char>>, ErrorView>(parts),
                out@ == join(parts, seq!['\n']),
                parts.len() == i,
            decreases block.statements@.len() - i,
        {
            let ghost prefix = sts.take(i as int);
            proof {
                assert(sts.take(i + 1).drop_last() =~= prefix);
                assert(sts.take(i + 1).last() == block.statements@[i as int]@);
            }
            let text = match self.generate_statements(&block.statements[i]) {
                Ok(t) => t,
                Err(e) => {
                    proof {
                        lemma_statement_error_stays(sts, i as int + 1);
                    }
                    return Err(e);
                },
            };
            if i > 0 {
                proof {
                    reveal_strlit("\n");
                }
                out.append("\n");
            }
            out.append(text.as_str());
            proof {
                let np = parts.push(text@);
                assert(np.drop_last() =~= parts);
                if i == 0 {
                    assert(out@ =~= join(np, seq!['\n']));
                }
                parts = np;
            }
            i = i + 1;
        }
        proof {
            assert(sts.take(i as int) =~= sts);
        }
        Ok(out)
    }

    fn generate_statements(&mut self, statement: &Statement) -> (r: Res<String>)
        ensures
            emitted(r, statement_text(statement@)),
    {
        proof {
            reveal_strlit("\tret");
            reveal_strlit("\tmov\tw0,  ");
            reveal_strlit("\n\tret");
        }
        match statement {
            Statement::Return(None) => {
                let out = String::from_str("\tret");
                proof {
                    assert(out@ =~= ret_text());
                }
                Ok(out)
            },
            Statement::Return(Some(val)) => {
                let body = self.generate_expressions(val)?;
                let mut out = String::from_str("\tmov\tw0,  ");
                out.append(body.as_str());
                out.append("\n\tret");
                proof {
                    assert(out@ =~= mov_text() + body@ + seq!['\n'] + ret_text());
                }
                Ok(out)
            },
        }
    }

    fn generate_expressions(&mut self, expression: &Expression) -> (r: Res<String>)
        ensures
            emitted(r, expression_text(expression@)),
    {
        match expression {
            Expression::Primary(p) => self.generate_primarys(p),
        }
    }

    fn generate_primarys(&mut self, primary: &PrimaryExpression) -> (r: Res<String>)
        ensures
            emitted(r, primary_text(primary@)),
    {
        match primary {
            PrimaryExpression::Literal(l) => match &l.kind {
                LiteralKind::Int(i) => {
                    proof {
                        reveal_strlit("#");
                    }
                    let mut out = String::from_str("#");
                    let digits = int_string(*i);
                    out.append(digits.as_str());
                    proof {
                        assert(out@ =~= seq!['#'] + int_text(*i as int));
                    }
                    Ok(out)
                },
                _ => Err(RscError::Unsupported(l.span)),
            },
            PrimaryExpression::Ident(id) => Err(RscError::Unsupported(id.span)),
        }
    }
}

proof fn lemma_statement_error_stays(sts: Seq<StatementView>, k: int)
    requires
        0 < k <= sts.len(),
        statement_texts(sts.take(k - 1)) is Ok,
        statement_text(sts[k - 1]) is Err,
    ensures
        statement_texts(sts.take(k)) == Err::<Seq<Seq<char>>, ErrorView>(
            statement_text(sts[k - 1])->Err_0,
        ),
        statement_texts(sts) == statement_texts(sts.take(k)),
    decreases sts.len() - k,
{
    assert(sts.take(k).drop_last() =~= sts.take(k - 1));
    if k < sts.len() {
        lemma_statement_error_stays_on(sts, k);
    } else {
        assert(sts.take(k) =~= sts);
    }
}

proof fn lemma_statement_error_stays_on(sts: Seq<StatementView>, k: int)
    requires
        0 < k <= sts.len(),
        statement_texts(sts.take(k)) is Err,
    ensures
        statement_texts(sts) == statement_texts(sts.take(k)),
    decreases sts.len() - k,
{
    if k < sts.len() {
        assert(sts.take(k + 1).drop_last() =~= sts.take(k));
        lemma_statement_error_stays_on(sts, k + 1);
    } else {
        assert(sts.take(k) =~= sts);
    }
}

proof fn lemma_texts_error_stays(ds: Seq<DeclarationView>, k: int)
    requires
        0 < k <= ds.len(),
        declaration_texts(ds.take(k - 1)) is Ok,
        declaration_text(ds[k - 1]) is Err,
    ensures
        declaration_texts(ds) == Err::<Seq<Seq<char>>, ErrorView>(
            declaration_text(ds[k - 1])->Err_0,
        ),
    decreases ds.len() - k,
{
    assert(ds.take(k).drop_last() =~= ds.take(k - 1));
    lemma_texts_error_stays_on(ds, k);
}

proof fn lemma_texts_error_stays_on(ds: Seq<DeclarationView>, k: int)
    requires
        0 < k <= ds.len(),
        declaration_texts(ds.take(k)) is Err,
    ensures
        declaration_texts(ds) == declaration_texts(ds.take(k)),
    decreases ds.len() - k,
{
    if k < ds.len() {
        assert(ds.take(k + 1).drop_last() =~= ds.take(k));
        lemma_texts_error_stays_on(ds, k + 1);
    } else {
        assert(ds.take(k) =~= ds);
    }
}

} // verus!
